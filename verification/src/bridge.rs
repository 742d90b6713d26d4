//! The bridge between a network namespace and the proxy outside it: which routes there are, and
//! what the loopback device inside needs.

use vstd::prelude::*;
use vstd::utf8::*;

use crate::os;
use crate::os::OsText;
use crate::reexec::{ProxyRouteEntry, ProxyRouteSpec};
use crate::text;

verus! {

// ---------------------------------------------------------------------------
// Routes
// ---------------------------------------------------------------------------

/// The environment variables that are led to the proxy. `NO_PROXY` is a mere hint, and is not.
pub open spec fn routed_keys() -> Seq<Seq<char>> {
    seq!["HTTP_PROXY"@, "HTTPS_PROXY"@, "ALL_PROXY"@]
}

/// The environment variables that are led to the proxy.
pub fn routed_proxy_env_keys() -> (r: Vec<String>)
    ensures
        r.deep_view() == routed_keys(),
{
    let mut keys: Vec<String> = Vec::new();
    keys.push("HTTP_PROXY".to_owned());
    keys.push("HTTPS_PROXY".to_owned());
    keys.push("ALL_PROXY".to_owned());
    assert(keys.deep_view() =~= routed_keys());
    keys
}

/// The name of the socket of the `i`-th route.
pub open spec fn socket_name(i: nat) -> Seq<char> {
    "route-"@ + text::decimal(i) + ".sock"@
}

/// The routes for a list of variables, with their sockets in a directory.
pub open spec fn routes_in(dir: Seq<u8>, keys: Seq<Seq<char>>) -> Seq<(Seq<char>, Seq<u8>)> {
    Seq::new(
        keys.len(),
        |i: int| (keys[i], os::path_join(dir, encode_utf8(socket_name(i as nat)))),
    )
}

/// Lays out one route for each variable, with its socket in `dir`.
pub fn route_spec(dir: &OsText, env_keys: &Vec<String>) -> (r: ProxyRouteSpec)
    ensures
        r.deep_view() == routes_in(dir@, env_keys.deep_view()),
{
    let mut routes: Vec<ProxyRouteEntry> = Vec::new();
    let mut i: usize = 0;
    while i < env_keys.len()
        invariant
            i <= env_keys@.len(),
            routes@.len() == i,
            forall|k: int|
                0 <= k < i ==> (#[trigger] routes@[k]).deep_view() == (
                    env_keys@[k]@,
                    os::path_join(dir@, encode_utf8(socket_name(k as nat))),
                ),
        decreases env_keys@.len() - i,
    {
        let name: String = text::join3("route-", text::to_decimal(i as u64).as_str(), ".sock");
        routes.push(
            ProxyRouteEntry {
                env_key: env_keys[i].clone(),
                uds_path: dir.join(&OsText::new(name.as_str())),
            },
        );
        i = i + 1;
    }
    assert(routes.deep_view() =~= routes_in(dir@, env_keys.deep_view()));
    ProxyRouteSpec { routes }
}

// ---------------------------------------------------------------------------
// The loopback device
// ---------------------------------------------------------------------------

/// How many bytes the name of a network device takes, with the zero byte at its end.
pub const IFNAMSIZ: usize = 16;

/// The name field after a name was written into it: as much of the name as leaves room for a
/// zero byte.
pub open spec fn named(field: Seq<u8>, name: Seq<u8>) -> Seq<u8> {
    Seq::new(
        field.len(),
        |i: int|
            if i < name.len() && i < IFNAMSIZ - 1 {
                name[i]
            } else {
                field[i]
            },
    )
}

/// Writes a device's name into its field.
pub fn set_iface_name(field: &mut [u8; 16], name: &[u8])
    ensures
        final(field)@ == named(old(field)@, name@),
{
    let ghost before = field@;
    let mut i: usize = 0;
    while i < name.len() && i < IFNAMSIZ - 1
        invariant
            i <= name@.len(),
            i <= IFNAMSIZ - 1,
            before.len() == 16,
            field@.len() == 16,
            forall|k: int| 0 <= k < i ==> field@[k] == name@[k],
            forall|k: int| i <= k < 16 ==> field@[k] == before[k],
        decreases name@.len() - i,
    {
        field[i] = name[i];
        i = i + 1;
    }
    assert(field@ =~= named(before, name@));
}

/// The flags of a device that is brought up: those that it has, and `up` and `running`.
pub fn raised_flags(flags: i16, up: i16, running: i16) -> (r: i16)
    ensures
        r == flags | (up | running),
{
    flags | (up | running)
}

/// Whether a failure to assign the loopback address matters: not where it was there already.
pub fn address_failure_matters(raw_os_error: Option<i32>, already_there: i32) -> (r: bool)
    ensures
        r == (raw_os_error != Some(already_there)),
{
    match raw_os_error {
        Some(e) => e != already_there,
        None => true,
    }
}

// ---------------------------------------------------------------------------
// Laws
// ---------------------------------------------------------------------------

/// Each variable has a route of its own, in order, and no two routes share a socket.
pub proof fn routes_are_distinct(dir: Seq<u8>, keys: Seq<Seq<char>>, i: int, j: int)
    requires
        0 <= i < keys.len(),
        0 <= j < keys.len(),
        routes_in(dir, keys)[i].1 == routes_in(dir, keys)[j].1,
    ensures
        i == j,
{
    reveal_strlit("route-");
    reveal_strlit(".sock");
    let a = socket_name(i as nat);
    let b = socket_name(j as nat);
    lemma_socket_relative(i as nat);
    lemma_socket_relative(j as nat);
    let x = encode_utf8(a);
    let y = encode_utf8(b);
    let p = os::path_join(dir, x);
    let q = os::path_join(dir, y);
    let lead = p.len() - x.len();
    assert(p.skip(lead) =~= x);
    assert(q.skip(q.len() - y.len()) =~= y);
    assert(q.len() - y.len() == lead);
    assert(x == y);
    os::text_of_encoded(a);
    os::text_of_encoded(b);
    assert(a == b);
    assert(a.subrange(6, a.len() - 5) =~= text::decimal(i as nat));
    assert(b.subrange(6, b.len() - 5) =~= text::decimal(j as nat));
    text::lemma_decimal_injective(i as nat, j as nat);
}

/// A socket's name does not start at the root.
proof fn lemma_socket_relative(i: nat)
    ensures
        !os::is_rooted(encode_utf8(socket_name(i))),
{
    reveal_strlit("route-");
    let s = socket_name(i);
    assert(s[0] == 'r');
    let first = encode_scalar(s[0] as u32);
    assert(first =~= seq![114u8]) by {
        assert(0x72u32 & 0x7F == 0x72) by (bit_vector);
    }
    assert(encode_utf8(s)[0] == 114);
}

/// Bringing a device up sets the two flags and clears none.
pub proof fn raising_keeps_flags(flags: i16, up: i16, running: i16)
    ensures
        ({
            let r = flags | (up | running);
            &&& r & flags == flags
            &&& r & up == up
            &&& r & running == running
        }),
{
    assert((flags | (up | running)) & flags == flags) by (bit_vector);
    assert((flags | (up | running)) & up == up) by (bit_vector);
    assert((flags | (up | running)) & running == running) by (bit_vector);
}

/// The variables that lead to the proxy are these three, each once; `NO_PROXY` is none of them.
pub proof fn three_variables_are_routed(key: Seq<char>)
    ensures
        routed_keys().contains(key) <==> key == "HTTP_PROXY"@ || key == "HTTPS_PROXY"@ || key
            == "ALL_PROXY"@,
        routed_keys().no_duplicates(),
{
    reveal_strlit("HTTP_PROXY");
    reveal_strlit("HTTPS_PROXY");
    reveal_strlit("ALL_PROXY");
    let keys = routed_keys();
    assert(keys[0] == "HTTP_PROXY"@ && keys[1] == "HTTPS_PROXY"@ && keys[2] == "ALL_PROXY"@);
    assert("HTTP_PROXY"@.len() == 10 && "HTTPS_PROXY"@.len() == 11 && "ALL_PROXY"@.len() == 9);
}

/// There is a route for each variable, in order, and its socket lies in the directory, under a
/// name that holds the number of the route.
pub proof fn routes_follow_the_variables(dir: Seq<u8>, keys: Seq<Seq<char>>, i: int)
    requires
        dir.len() > 0,
        dir.last() != 47u8,
        0 <= i < keys.len(),
    ensures
        routes_in(dir, keys).len() == keys.len(),
        routes_in(dir, keys)[i].0 == keys[i],
        routes_in(dir, keys)[i].1 == dir + seq![47u8] + encode_utf8(
            "route-"@ + text::decimal(i as nat) + ".sock"@,
        ),
{
    lemma_socket_relative(i as nat);
    os::joined_by_one_slash(dir, encode_utf8(socket_name(i as nat)));
}

/// A device's field gets the first fifteen bytes of its name and nothing else: what comes after
/// them, and the last byte in any case, stays as it was.
pub proof fn name_leaves_room_for_its_end(field: Seq<u8>, name: Seq<u8>, i: int)
    requires
        field.len() == 16,
        0 <= i < 16,
    ensures
        named(field, name).len() == 16,
        i < name.len() && i < 15 ==> named(field, name)[i] == name[i],
        i >= name.len() || i == 15 ==> named(field, name)[i] == field[i],
{
}

} // verus!
