//! IP addresses and CIDR networks as plain integers, with the containment,
//! overlap and digit arithmetic that reverse zones need.
use vstd::prelude::*;

verus! {

/// An IP address: IPv4 as its 32-bit value, IPv6 as its 128-bit value.
/// The derived order puts every IPv4 address before every IPv6 address and
/// orders each family numerically.
#[derive(Debug, Clone, Copy, PartialEq, Eq, PartialOrd, Ord, Hash, Structural)]
pub enum IpAddress {
    V4(u32),
    V6(u128),
}

/// A CIDR network: an address and a prefix length (at most 32 for IPv4,
/// at most 128 for IPv6). The address may have bits set below the prefix.
#[derive(Debug, Clone, Copy, PartialEq, Eq, Hash, Structural)]
pub enum IpNet {
    V4 { addr: u32, prefix: u8 },
    V6 { addr: u128, prefix: u8 },
}

/// `a` shifted right by `k` bits: `a / 2^k`.
pub open spec fn shr(a: nat, k: nat) -> nat
    decreases k,
{
    if k == 0 {
        a
    } else {
        shr(a / 2, (k - 1) as nat)
    }
}

/// Whether the `width`-bit values `a` and `b` agree on their leading `p`
/// bits.
pub open spec fn same_prefix(a: nat, b: nat, width: nat, p: nat) -> bool {
    shr(a, (width - p) as nat) == shr(b, (width - p) as nat)
}

impl IpNet {
    /// Prefix no longer than the address.
    pub open spec fn wf(&self) -> bool {
        match *self {
            IpNet::V4 { prefix, .. } => prefix <= 32,
            IpNet::V6 { prefix, .. } => prefix <= 128,
        }
    }

    /// A network from an IPv4 address and a prefix length.
    pub fn v4(addr: u32, prefix: u8) -> (r: Option<IpNet>)
        ensures
            prefix <= 32 ==> r == Some(IpNet::V4 { addr, prefix }),
            prefix > 32 ==> r is None,
    {
        if prefix <= 32 {
            Some(IpNet::V4 { addr, prefix })
        } else {
            None
        }
    }

    /// A network from an IPv6 address and a prefix length.
    pub fn v6(addr: u128, prefix: u8) -> (r: Option<IpNet>)
        ensures
            prefix <= 128 ==> r == Some(IpNet::V6 { addr, prefix }),
            prefix > 128 ==> r is None,
    {
        if prefix <= 128 {
            Some(IpNet::V6 { addr, prefix })
        } else {
            None
        }
    }
}

/// Whether `ip` lies inside `net`: same family, and the same leading
/// prefix bits.
pub open spec fn net_contains(net: IpNet, ip: IpAddress) -> bool {
    match (net, ip) {
        (IpNet::V4 { addr, prefix }, IpAddress::V4(x)) => same_prefix(
            addr as nat,
            x as nat,
            32,
            prefix as nat,
        ),
        (IpNet::V6 { addr, prefix }, IpAddress::V6(x)) => same_prefix(
            addr as nat,
            x as nat,
            128,
            prefix as nat,
        ),
        _ => false,
    }
}

/// Whether two networks share an address: same family, and agreement on
/// the leading bits of the shorter prefix.
pub open spec fn nets_overlap(a: IpNet, b: IpNet) -> bool {
    match (a, b) {
        (IpNet::V4 { addr: x, prefix: p }, IpNet::V4 { addr: y, prefix: q }) => same_prefix(
            x as nat,
            y as nat,
            32,
            if p <= q {
                p as nat
            } else {
                q as nat
            },
        ),
        (IpNet::V6 { addr: x, prefix: p }, IpNet::V6 { addr: y, prefix: q }) => same_prefix(
            x as nat,
            y as nat,
            128,
            if p <= q {
                p as nat
            } else {
                q as nat
            },
        ),
        _ => false,
    }
}

/// `a` shifted right by `k` bits.
fn shift_right(a: u128, k: u32) -> (r: u128)
    ensures
        r as nat == shr(a as nat, k as nat),
{
    let mut x: u128 = a;
    let mut rem: u32 = k;
    while rem > 0
        invariant
            shr(x as nat, rem as nat) == shr(a as nat, k as nat),
        decreases rem,
    {
        x = x / 2;
        rem = rem - 1;
    }
    x
}

fn same_prefix_exec(a: u128, b: u128, width: u32, p: u32) -> (r: bool)
    requires
        p <= width,
    ensures
        r == same_prefix(a as nat, b as nat, width as nat, p as nat),
{
    shift_right(a, width - p) == shift_right(b, width - p)
}

/// Whether `net` holds `ip`.
pub fn contains(net: &IpNet, ip: &IpAddress) -> (r: bool)
    requires
        net.wf(),
    ensures
        r == net_contains(*net, *ip),
{
    match (*net, *ip) {
        (IpNet::V4 { addr, prefix }, IpAddress::V4(x)) => same_prefix_exec(
            addr as u128,
            x as u128,
            32,
            prefix as u32,
        ),
        (IpNet::V6 { addr, prefix }, IpAddress::V6(x)) => same_prefix_exec(
            addr,
            x,
            128,
            prefix as u32,
        ),
        _ => false,
    }
}

/// Whether the networks `a` and `b` share an address.
pub fn overlaps(a: &IpNet, b: &IpNet) -> (r: bool)
    requires
        a.wf(),
        b.wf(),
    ensures
        r == nets_overlap(*a, *b),
{
    match (*a, *b) {
        (IpNet::V4 { addr: x, prefix: p }, IpNet::V4 { addr: y, prefix: q }) => {
            let m = if p <= q {
                p
            } else {
                q
            };
            same_prefix_exec(x as u128, y as u128, 32, m as u32)
        },
        (IpNet::V6 { addr: x, prefix: p }, IpNet::V6 { addr: y, prefix: q }) => {
            let m = if p <= q {
                p
            } else {
                q
            };
            same_prefix_exec(x, y, 128, m as u32)
        },
        _ => false,
    }
}

pub proof fn lemma_shr_shr(a: nat, m: nat, n: nat)
    ensures
        shr(shr(a, m), n) == shr(a, m + n),
    decreases m,
{
    if m > 0 {
        lemma_shr_shr(a / 2, (m - 1) as nat, n);
        assert(shr(a, m + n) == shr(a / 2, (m + n - 1) as nat));
    }
}

/// Two networks that hold one address share addresses.
pub proof fn lemma_common_address_overlaps(a: IpNet, b: IpNet, ip: IpAddress)
    requires
        a.wf(),
        b.wf(),
        net_contains(a, ip),
        net_contains(b, ip),
    ensures
        nets_overlap(a, b),
{
    match (a, b, ip) {
        (IpNet::V4 { addr: x, prefix: p }, IpNet::V4 { addr: y, prefix: q }, IpAddress::V4(z)) => {
            if p <= q {
                lemma_shr_shr(y as nat, (32 - q) as nat, (q - p) as nat);
                lemma_shr_shr(z as nat, (32 - q) as nat, (q - p) as nat);
            } else {
                lemma_shr_shr(x as nat, (32 - p) as nat, (p - q) as nat);
                lemma_shr_shr(z as nat, (32 - p) as nat, (p - q) as nat);
            }
        },
        (IpNet::V6 { addr: x, prefix: p }, IpNet::V6 { addr: y, prefix: q }, IpAddress::V6(z)) => {
            if p <= q {
                lemma_shr_shr(y as nat, (128 - q) as nat, (q - p) as nat);
                lemma_shr_shr(z as nat, (128 - q) as nat, (q - p) as nat);
            } else {
                lemma_shr_shr(x as nat, (128 - p) as nat, (p - q) as nat);
                lemma_shr_shr(z as nat, (128 - p) as nat, (p - q) as nat);
            }
        },
        _ => {},
    }
}

/// The `n` lowest digits of `v` in base `base`, least significant first.
pub open spec fn digits(v: int, base: int, n: nat) -> Seq<int>
    decreases n,
{
    if n == 0 {
        Seq::empty()
    } else {
        seq![v % base].add(digits(v / base, base, (n - 1) as nat))
    }
}

pub proof fn lemma_digits_len(v: int, base: int, n: nat)
    ensures
        digits(v, base, n).len() == n,
    decreases n,
{
    if n > 0 {
        lemma_digits_len(v / base, base, (n - 1) as nat);
    }
}

pub proof fn lemma_digits_bound(v: int, base: int, n: nat)
    requires
        base > 0,
    ensures
        digits(v, base, n).len() == n,
        forall|i: int| 0 <= i < n ==> 0 <= #[trigger] digits(v, base, n)[i] < base,
    decreases n,
{
    lemma_digits_len(v, base, n);
    if n > 0 {
        lemma_digits_bound(v / base, base, (n - 1) as nat);
        assert forall|i: int| 0 <= i < n implies 0 <= #[trigger] digits(v, base, n)[i] < base by {
            if i > 0 {
                assert(digits(v, base, n)[i] == digits(v / base, base, (n - 1) as nat)[i - 1]);
            }
        }
    }
}

/// The `n` lowest digits of `v` in base `base`, least significant first.
pub fn digits_of(v: u128, base: u128, n: usize) -> (r: Vec<u8>)
    requires
        2 <= base <= 256,
    ensures
        r@.len() == n,
        forall|i: int| 0 <= i < n ==> r@[i] as int == #[trigger] digits(v as int, base as int, n as nat)[i],
{
    let ghost all = digits(v as int, base as int, n as nat);
    proof {
        lemma_digits_len(v as int, base as int, n as nat);
        assert(all.skip(0) =~= all);
    }
    let mut r: Vec<u8> = Vec::new();
    let mut x: u128 = v;
    let mut k: usize = 0;
    while k < n
        invariant
            k <= n,
            2 <= base <= 256,
            all == digits(v as int, base as int, n as nat),
            all.len() == n,
            r@.len() == k,
            forall|i: int| 0 <= i < k ==> r@[i] as int == #[trigger] all[i],
            digits(x as int, base as int, (n - k) as nat) == all.skip(k as int),
        decreases n - k,
    {
        let d = x % base;
        proof {
            let rest = digits(x as int, base as int, (n - k) as nat);
            let tail = digits((x / base) as int, base as int, (n - k - 1) as nat);
            lemma_digits_len((x / base) as int, base as int, (n - k - 1) as nat);
            assert(rest == seq![x as int % base as int] + tail);
            assert(rest[0] == x as int % base as int);
            assert(all.skip(k as int)[0] == all[k as int]);
            assert(rest.skip(1) =~= tail);
            assert(all.skip(k + 1) =~= all.skip(k as int).skip(1));
        }
        r.push(d as u8);
        x = x / base;
        k = k + 1;
    }
    r
}

} // verus!
