use vstd::prelude::*;
use crate::error::ServiceError;

verus! {

/// A validated IPv4 address, one field per octet.
#[derive(Clone, Copy, PartialEq, Eq, Structural, Debug)]
pub struct Ip {
    pub a: u8,
    pub b: u8,
    pub c: u8,
    pub d: u8,
}

impl Ip {
    pub fn new(a: u8, b: u8, c: u8, d: u8) -> (r: Ip)
        ensures
            r == (Ip { a, b, c, d }),
    {
        Ip { a, b, c, d }
    }
}

/// An address as read back from the registry.  Only the family and, for IPv4,
/// the octets are ever inspected, so an IPv6 value carries no payload.
#[derive(Clone, Copy, PartialEq, Eq, Structural, Debug)]
pub enum IpAddress {
    V4(Ip),
    V6,
}

impl IpAddress {
    pub fn is_ipv6(&self) -> (r: bool)
        ensures
            r == (self is V6),
    {
        match self {
            IpAddress::V4(_) => false,
            IpAddress::V6 => true,
        }
    }
}

/// True when `a` is an IPv4 address whose last octet is `n`.
pub open spec fn entry_has_octet(a: IpAddress, n: int) -> bool {
    match a {
        IpAddress::V4(ip) => ip.d == n,
        IpAddress::V6 => false,
    }
}

/// True when some assigned address has `n` as its last octet.
pub open spec fn contains_octet(s: Seq<IpAddress>, n: int) -> bool {
    exists|i: int| 0 <= i < s.len() && entry_has_octet(s[i], n)
}

/// True when some member of `s` is not an IPv4 address.
pub open spec fn has_v6(s: Seq<IpAddress>) -> bool {
    exists|i: int| 0 <= i < s.len() && (#[trigger] s[i]) is V6
}

/// The first IPv4 member of `s` whose last octet is `n`; meaningful only
/// when `contains_octet(s, n)` holds.
pub open spec fn first_v4_with_octet(s: Seq<IpAddress>, n: int) -> Ip
    decreases s.len(),
{
    if s.len() == 0 {
        Ip { a: 0, b: 0, c: 0, d: 0 }
    } else {
        match s[0] {
            IpAddress::V4(ip) => if ip.d == n {
                ip
            } else {
                first_v4_with_octet(s.drop_first(), n)
            },
            IpAddress::V6 => first_v4_with_octet(s.drop_first(), n),
        }
    }
}

/// The smallest assigned last octet that is at least `n`, or 256 when there
/// is none.
pub open spec fn first_assigned_from(s: Seq<IpAddress>, n: int) -> int
    decreases 256 - n when n <= 256
{
    if n >= 256 {
        256
    } else if contains_octet(s, n) {
        n
    } else {
        first_assigned_from(s, n + 1)
    }
}

/// The smallest octet value at or above `n` that is free, where everything
/// above the ceiling 254 counts as beyond the pool.
pub open spec fn next_free_from(s: Seq<IpAddress>, n: int) -> int
    decreases 256 - n when n <= 256
{
    if n > 254 || !contains_octet(s, n) {
        n
    } else {
        next_free_from(s, n + 1)
    }
}

/// The smallest assigned last octet, or 256 for a pool with no IPv4 member.
pub open spec fn spec_min_octet(s: Seq<IpAddress>) -> int {
    first_assigned_from(s, 0)
}

/// The last octet the allocator hands out: 1 on an empty pool, otherwise the
/// lowest free value above the smallest assignment.  A value above 254 means
/// the pool is exhausted.
pub open spec fn spec_candidate(s: Seq<IpAddress>) -> int {
    if spec_min_octet(s) == 256 {
        1
    } else {
        next_free_from(s, spec_min_octet(s) + 1)
    }
}

/// The address the allocator returns when the pool is not exhausted: the
/// candidate octet behind the leading octets of the assignment just below it,
/// or behind the pool base on an empty pool.
pub open spec fn spec_next_ip(s: Seq<IpAddress>, base: Ip) -> Ip {
    if spec_min_octet(s) == 256 {
        Ip { a: base.a, b: base.b, c: base.c, d: 1 }
    } else {
        let owner = first_v4_with_octet(s, spec_candidate(s) - 1);
        Ip { a: owner.a, b: owner.b, c: owner.c, d: spec_candidate(s) as u8 }
    }
}

proof fn lemma_first_v4_with_octet(s: Seq<IpAddress>, n: int, i: int)
    requires
        0 <= i < s.len(),
        entry_has_octet(s[i], n),
        forall|j: int| 0 <= j < i ==> !entry_has_octet(s[j], n),
    ensures
        s[i] == IpAddress::V4(first_v4_with_octet(s, n)),
    decreases i,
{
    if i > 0 {
        assert(forall|j: int| 0 <= j < i - 1 ==> !entry_has_octet(s.drop_first()[j], n));
        lemma_first_v4_with_octet(s.drop_first(), n, i - 1);
    }
}

proof fn lemma_first_assigned_from(s: Seq<IpAddress>, n: int)
    requires
        0 <= n <= 256,
    ensures
        n <= first_assigned_from(s, n) <= 256,
        first_assigned_from(s, n) < 256 ==> contains_octet(s, first_assigned_from(s, n)),
        forall|k: int| n <= k < first_assigned_from(s, n) ==> !contains_octet(s, k),
    decreases 256 - n,
{
    if n < 256 && !contains_octet(s, n) {
        lemma_first_assigned_from(s, n + 1);
    }
}

proof fn lemma_next_free_from(s: Seq<IpAddress>, n: int)
    requires
        0 <= n <= 256,
    ensures
        n <= next_free_from(s, n),
        next_free_from(s, n) <= 254 ==> !contains_octet(s, next_free_from(s, n)),
        forall|k: int| n <= k < next_free_from(s, n) ==> contains_octet(s, k),
    decreases 256 - n,
{
    if !(n > 254 || !contains_octet(s, n)) {
        lemma_next_free_from(s, n + 1);
    }
}

/// The allocator is a lowest-free-slot scan: the candidate octet sits above
/// the smallest assigned octet, is itself free unless it lies beyond the
/// ceiling, and every octet strictly between the smallest assignment and the
/// candidate is assigned.
pub proof fn lemma_candidate_characterization(s: Seq<IpAddress>)
    requires
        spec_min_octet(s) < 256,
    ensures
        contains_octet(s, spec_min_octet(s)),
        forall|k: int| 0 <= k < spec_min_octet(s) ==> !contains_octet(s, k),
        spec_candidate(s) > spec_min_octet(s),
        spec_candidate(s) <= 254 ==> !contains_octet(s, spec_candidate(s)),
        forall|k: int| spec_min_octet(s) < k < spec_candidate(s) ==> contains_octet(s, k),
{
    lemma_first_assigned_from(s, 0);
    lemma_next_free_from(s, spec_min_octet(s) + 1);
}

/// For a pool whose assigned octets are exactly the contiguous run `1..=n`,
/// the allocator hands out `n + 1`.
pub proof fn lemma_contiguous_run(s: Seq<IpAddress>, n: int)
    requires
        1 <= n <= 253,
        forall|k: int| #[trigger] contains_octet(s, k) <==> 1 <= k <= n,
    ensures
        spec_candidate(s) == n + 1,
{
    assert(contains_octet(s, 1));
    lemma_first_assigned_from(s, 0);
    assert(spec_min_octet(s) < 256);
    assert(spec_min_octet(s) == 1);
    lemma_candidate_characterization(s);
    let c = spec_candidate(s);
    if c <= 254 {
        assert(!contains_octet(s, c));
        if c > n + 1 {
            assert(contains_octet(s, n + 1));
        }
    } else {
        assert(contains_octet(s, 254));
    }
}

/// A pool where every octet from the smallest assignment up to the ceiling
/// 254 is assigned has no free address left.
pub proof fn lemma_pool_exhausted(s: Seq<IpAddress>)
    requires
        spec_min_octet(s) < 256,
        forall|k: int| spec_min_octet(s) <= k <= 254 ==> contains_octet(s, k),
    ensures
        spec_candidate(s) > 254,
{
    lemma_candidate_characterization(s);
    let c = spec_candidate(s);
    if c <= 254 {
        assert(contains_octet(s, c));
    }
}

/// An empty pool has candidate octet 1 over the configured base.
pub proof fn lemma_empty_pool(s: Seq<IpAddress>, base: Ip)
    requires
        s.len() == 0,
    ensures
        spec_min_octet(s) == 256,
        spec_candidate(s) == 1,
        spec_next_ip(s, base) == (Ip { a: base.a, b: base.b, c: base.c, d: 1 }),
{
    lemma_first_assigned_from(s, 0);
    if spec_min_octet(s) < 256 {
        assert(contains_octet(s, spec_min_octet(s)));
    }
}

fn find_octet(addrs: &Vec<IpAddress>, n: u8) -> (r: Option<Ip>)
    ensures
        match r {
            Some(ip) => contains_octet(addrs@, n as int) && ip.d == n && ip
                == first_v4_with_octet(addrs@, n as int),
            None => !contains_octet(addrs@, n as int),
        },
{
    let mut i: usize = 0;
    while i < addrs.len()
        invariant
            i <= addrs.len(),
            forall|j: int| 0 <= j < i ==> !entry_has_octet(addrs@[j], n as int),
        decreases addrs.len() - i,
    {
        match addrs[i] {
            IpAddress::V4(ip) => {
                if ip.d == n {
                    proof {
                        lemma_first_v4_with_octet(addrs@, n as int, i as int);
                    }
                    return Some(ip);
                }
            },
            IpAddress::V6 => {},
        }
        i = i + 1;
    }
    None
}

fn find_min(addrs: &Vec<IpAddress>) -> (r: Option<Ip>)
    ensures
        match r {
            Some(ip) => spec_min_octet(addrs@) == ip.d as int && ip == first_v4_with_octet(
                addrs@,
                ip.d as int,
            ),
            None => spec_min_octet(addrs@) == 256,
        },
{
    let mut n: u16 = 0;
    while n < 256
        invariant
            n <= 256,
            spec_min_octet(addrs@) == first_assigned_from(addrs@, n as int),
        decreases 256 - n as int,
    {
        match find_octet(addrs, n as u8) {
            Some(ip) => {
                return Some(ip);
            },
            None => {},
        }
        n = n + 1;
    }
    None
}

/// The gap-scanning allocator.  Given the currently assigned addresses it
/// returns the lowest free address above the smallest assignment, carrying
/// the leading octets of the assignment just below the chosen octet; on an
/// empty pool it returns the configured base address with last octet 1.  It
/// fails with `UnsupportedAddressFamily` when any member is not IPv4 and
/// with `PoolExhausted` when no octet below the ceiling 254 is free.
pub fn next_free_addr_v4(addrs: &Vec<IpAddress>, base: &Ip) -> (r: Result<Ip, ServiceError>)
    ensures
        match r {
            Ok(ip) => !has_v6(addrs@) && 1 <= spec_candidate(addrs@) <= 254 && ip == spec_next_ip(
                addrs@,
                *base,
            ),
            Err(ServiceError::UnsupportedAddressFamily) => has_v6(addrs@),
            Err(ServiceError::PoolExhausted) => !has_v6(addrs@) && spec_candidate(addrs@) > 254,
            Err(_) => false,
        },
{
    let mut i: usize = 0;
    while i < addrs.len()
        invariant
            i <= addrs.len(),
            forall|j: int| 0 <= j < i ==> !((#[trigger] addrs@[j]) is V6),
        decreases addrs.len() - i,
    {
        match addrs[i] {
            IpAddress::V6 => {
                return Err(ServiceError::UnsupportedAddressFamily);
            },
            IpAddress::V4(_) => {},
        }
        i = i + 1;
    }
    let min_ip = match find_min(addrs) {
        None => {
            return Ok(Ip { a: base.a, b: base.b, c: base.c, d: 1 });
        },
        Some(ip) => ip,
    };
    proof {
        lemma_candidate_characterization(addrs@);
    }
    let mut cur: Ip = min_ip;
    while cur.d < 254
        invariant
            !has_v6(addrs@),
            spec_min_octet(addrs@) < 256,
            cur == first_v4_with_octet(addrs@, cur.d as int),
            contains_octet(addrs@, cur.d as int),
            spec_candidate(addrs@) == next_free_from(addrs@, cur.d as int + 1),
        decreases 254 - cur.d as int,
    {
        match find_octet(addrs, cur.d + 1) {
            Some(ip2) => {
                cur = ip2;
            },
            None => {
                return Ok(Ip { a: cur.a, b: cur.b, c: cur.c, d: cur.d + 1 });
            },
        }
    }
    Err(ServiceError::PoolExhausted)
}


/// True when `b` is an ASCII decimal digit.
pub open spec fn is_digit(b: u8) -> bool {
    48 <= b <= 57
}

/// The ASCII digit for a value in 0..=9.
pub open spec fn spec_digit(d: int) -> u8 {
    (48 + d) as u8
}

/// The canonical decimal text of one octet: no sign, no leading zero.
pub open spec fn spec_format_octet(n: int) -> Seq<u8> {
    if n < 10 {
        seq![spec_digit(n)]
    } else if n < 100 {
        seq![spec_digit(n / 10), spec_digit(n % 10)]
    } else {
        seq![spec_digit(n / 100), spec_digit((n / 10) % 10), spec_digit(n % 10)]
    }
}

/// The canonical dotted-quad text of an IPv4 address.
pub open spec fn spec_format_ip(ip: Ip) -> Seq<u8> {
    spec_format_octet(ip.a as int) + seq![46u8] + spec_format_octet(ip.b as int) + seq![46u8]
        + spec_format_octet(ip.c as int) + seq![46u8] + spec_format_octet(ip.d as int)
}

/// True when `s` is the canonical text of some IPv4 address.
pub open spec fn canonical_v4(s: Seq<u8>) -> bool {
    exists|ip: Ip| s == spec_format_ip(ip)
}

/// True when `s` holds an ASCII colon, the mark of IPv6 text.
pub open spec fn has_colon(s: Seq<u8>) -> bool {
    exists|i: int| 0 <= i < s.len() && s[i] == 58
}

fn push_octet(out: &mut Vec<u8>, n: u8)
    ensures
        final(out)@ == old(out)@ + spec_format_octet(n as int),
{
    if n < 10 {
        out.push(48 + n);
    } else if n < 100 {
        out.push(48 + n / 10);
        out.push(48 + n % 10);
    } else {
        out.push(48 + n / 100);
        out.push(48 + (n / 10) % 10);
        out.push(48 + n % 10);
    }
    proof {
        assert(out@ =~= old(out)@ + spec_format_octet(n as int));
    }
}

/// Renders an IPv4 address as its canonical dotted-quad text.
pub fn format_ip(ip: &Ip) -> (r: Vec<u8>)
    ensures
        r@ == spec_format_ip(*ip),
{
    let mut out: Vec<u8> = Vec::new();
    push_octet(&mut out, ip.a);
    out.push(46);
    push_octet(&mut out, ip.b);
    out.push(46);
    push_octet(&mut out, ip.c);
    out.push(46);
    push_octet(&mut out, ip.d);
    proof {
        assert(out@ =~= spec_format_ip(*ip));
    }
    out
}

proof fn lemma_format_octet_props(v: int)
    requires
        0 <= v <= 255,
    ensures
        1 <= spec_format_octet(v).len() <= 3,
        forall|i: int| 0 <= i < spec_format_octet(v).len() ==> is_digit(
            #[trigger] spec_format_octet(v)[i],
        ),
        spec_format_octet(v).len() == 1 <==> v < 10,
        spec_format_octet(v).len() == 2 <==> 10 <= v < 100,
        spec_format_octet(v).len() == 3 <==> v >= 100,
        spec_format_octet(v).len() >= 2 ==> spec_format_octet(v)[0] != 48,
{
}

proof fn lemma_octet_digits(v: int)
    requires
        0 <= v <= 255,
    ensures
        v == 100 * (v / 100) + 10 * ((v / 10) % 10) + v % 10,
{
    vstd::arithmetic::div_mod::lemma_fundamental_div_mod(v, 10);
    vstd::arithmetic::div_mod::lemma_fundamental_div_mod(v / 10, 10);
    vstd::arithmetic::div_mod::lemma_div_denominator(v, 10, 10);
}

proof fn lemma_format_octet_injective(v1: int, v2: int)
    requires
        0 <= v1 <= 255,
        0 <= v2 <= 255,
        spec_format_octet(v1) == spec_format_octet(v2),
    ensures
        v1 == v2,
{
    lemma_format_octet_props(v1);
    lemma_format_octet_props(v2);
    let s = spec_format_octet(v1);
    if s.len() == 1 {
        assert(v1 < 10 && v2 < 10);
        assert(spec_format_octet(v1)[0] == spec_digit(v1));
        assert(spec_format_octet(v2)[0] == spec_digit(v2));
        assert(spec_digit(v1) == spec_digit(v2));
        assert(v1 == v2);
    } else if s.len() == 2 {
        assert(10 <= v1 < 100 && 10 <= v2 < 100);
        assert(spec_format_octet(v1)[0] == spec_digit(v1 / 10));
        assert(spec_format_octet(v2)[0] == spec_digit(v2 / 10));
        assert(spec_format_octet(v1)[1] == spec_digit(v1 % 10));
        assert(spec_format_octet(v2)[1] == spec_digit(v2 % 10));
        assert(spec_digit(v1 / 10) == spec_digit(v2 / 10));
        assert(spec_digit(v1 % 10) == spec_digit(v2 % 10));
        assert(v1 / 10 == v2 / 10 && v1 % 10 == v2 % 10);
        assert(v1 == 10 * (v1 / 10) + v1 % 10);
        assert(v2 == 10 * (v2 / 10) + v2 % 10);
    } else {
        lemma_octet_digits(v1);
        lemma_octet_digits(v2);
        assert(100 <= v1 && 100 <= v2);
        assert(spec_format_octet(v1)[0] == spec_digit(v1 / 100));
        assert(spec_format_octet(v2)[0] == spec_digit(v2 / 100));
        assert(spec_format_octet(v1)[1] == spec_digit((v1 / 10) % 10));
        assert(spec_format_octet(v2)[1] == spec_digit((v2 / 10) % 10));
        assert(spec_format_octet(v1)[2] == spec_digit(v1 % 10));
        assert(spec_format_octet(v2)[2] == spec_digit(v2 % 10));
        assert(spec_digit(v1 / 100) == spec_digit(v2 / 100));
        assert(spec_digit((v1 / 10) % 10) == spec_digit((v2 / 10) % 10));
        assert(spec_digit(v1 % 10) == spec_digit(v2 % 10));
        assert(v1 / 100 == v2 / 100);
        assert((v1 / 10) % 10 == (v2 / 10) % 10);
        assert(v1 % 10 == v2 % 10);
    }
}

proof fn lemma_format_ip_dots(ip: Ip)
    ensures
        ({
            let s = spec_format_ip(ip);
            let p1 = spec_format_octet(ip.a as int).len() as int;
            let p2 = p1 + 1 + spec_format_octet(ip.b as int).len() as int;
            let p3 = p2 + 1 + spec_format_octet(ip.c as int).len() as int;
            &&& s.len() == p3 + 1 + spec_format_octet(ip.d as int).len()
            &&& s[p1] == 46
            &&& s[p2] == 46
            &&& s[p3] == 46
            &&& forall|i: int|
                0 <= i < s.len() && i != p1 && i != p2 && i != p3 ==> is_digit(#[trigger] s[i])
            &&& s.subrange(0, p1) == spec_format_octet(ip.a as int)
            &&& s.subrange(p1 + 1, p2) == spec_format_octet(ip.b as int)
            &&& s.subrange(p2 + 1, p3) == spec_format_octet(ip.c as int)
            &&& s.subrange(p3 + 1, s.len() as int) == spec_format_octet(ip.d as int)
        }),
{
    lemma_format_octet_props(ip.a as int);
    lemma_format_octet_props(ip.b as int);
    lemma_format_octet_props(ip.c as int);
    lemma_format_octet_props(ip.d as int);
    let s = spec_format_ip(ip);
    let p1 = spec_format_octet(ip.a as int).len() as int;
    let p2 = p1 + 1 + spec_format_octet(ip.b as int).len() as int;
    let p3 = p2 + 1 + spec_format_octet(ip.c as int).len() as int;
    assert(s.subrange(0, p1) =~= spec_format_octet(ip.a as int));
    assert(s.subrange(p1 + 1, p2) =~= spec_format_octet(ip.b as int));
    assert(s.subrange(p2 + 1, p3) =~= spec_format_octet(ip.c as int));
    assert(s.subrange(p3 + 1, s.len() as int) =~= spec_format_octet(ip.d as int));
}

fn find_byte(s: &Vec<u8>, from: usize, target: u8) -> (r: Option<usize>)
    requires
        from <= s@.len(),
    ensures
        match r {
            Some(j) => from <= j < s@.len() && s@[j as int] == target && forall|k: int|
                from <= k < j ==> s@[k] != target,
            None => forall|k: int| from <= k < s@.len() ==> s@[k] != target,
        },
{
    let mut i: usize = from;
    while i < s.len()
        invariant
            from <= i <= s@.len(),
            forall|k: int| from <= k < i ==> s@[k] != target,
        decreases s@.len() - i,
    {
        if s[i] == target {
            return Some(i);
        }
        i = i + 1;
    }
    None
}

fn parse_octet(s: &Vec<u8>, lo: usize, hi: usize) -> (r: Option<u8>)
    requires
        lo <= hi <= s@.len(),
    ensures
        match r {
            Some(v) => s@.subrange(lo as int, hi as int) == spec_format_octet(v as int),
            None => forall|v: u8| s@.subrange(lo as int, hi as int) != spec_format_octet(v as int),
        },
{
    let ghost seg = s@.subrange(lo as int, hi as int);
    let len = hi - lo;
    if len == 1 {
        let b0 = s[lo];
        if 48 <= b0 && b0 <= 57 {
            let v = b0 - 48;
            proof {
                assert(seg =~= spec_format_octet(v as int));
            }
            Some(v)
        } else {
            proof {
                assert forall|v: u8| seg != spec_format_octet(v as int) by {
                    lemma_format_octet_props(v as int);
                    if seg == spec_format_octet(v as int) {
                        assert(is_digit(seg[0]));
                    }
                }
            }
            None
        }
    } else if len == 2 {
        let b0 = s[lo];
        let b1 = s[lo + 1];
        if 49 <= b0 && b0 <= 57 && 48 <= b1 && b1 <= 57 {
            let v = (b0 - 48) * 10 + (b1 - 48);
            proof {
                assert(v / 10 == b0 - 48 && v % 10 == b1 - 48);
                assert(seg =~= spec_format_octet(v as int));
            }
            Some(v)
        } else {
            proof {
                assert forall|v: u8| seg != spec_format_octet(v as int) by {
                    lemma_format_octet_props(v as int);
                    if seg == spec_format_octet(v as int) {
                        assert(is_digit(seg[0]) && is_digit(seg[1]) && seg[0] != 48);
                    }
                }
            }
            None
        }
    } else if len == 3 {
        let b0 = s[lo];
        let b1 = s[lo + 1];
        let b2 = s[lo + 2];
        if 49 <= b0 && b0 <= 57 && 48 <= b1 && b1 <= 57 && 48 <= b2 && b2 <= 57 {
            let wide: u16 = (b0 - 48) as u16 * 100 + (b1 - 48) as u16 * 10 + (b2 - 48) as u16;
            if wide <= 255 {
                let v = wide as u8;
                proof {
                    assert(v >= 100);
                    assert(v / 100 == b0 - 48 && (v / 10) % 10 == b1 - 48 && v % 10 == b2 - 48);
                    assert(seg =~= spec_format_octet(v as int));
                }
                Some(v)
            } else {
                proof {
                    assert forall|v: u8| seg != spec_format_octet(v as int) by {
                        lemma_format_octet_props(v as int);
                        if seg == spec_format_octet(v as int) {
                            let vi = v as int;
                            assert(seg[0] == spec_digit(vi / 100));
                            assert(seg[1] == spec_digit((vi / 10) % 10));
                            assert(seg[2] == spec_digit(vi % 10));
                            lemma_octet_digits(vi);
                        }
                    }
                }
                None
            }
        } else {
            proof {
                assert forall|v: u8| seg != spec_format_octet(v as int) by {
                    lemma_format_octet_props(v as int);
                    if seg == spec_format_octet(v as int) {
                        assert(is_digit(seg[0]) && is_digit(seg[1]) && is_digit(seg[2]));
                        assert(seg[0] != 48);
                    }
                }
            }
            None
        }
    } else {
        proof {
            assert forall|v: u8| seg != spec_format_octet(v as int) by {
                lemma_format_octet_props(v as int);
            }
        }
        None
    }
}

fn classify_non_v4(s: &Vec<u8>) -> (r: Result<IpAddress, ServiceError>)
    ensures
        match r {
            Ok(IpAddress::V6) => has_colon(s@),
            Err(ServiceError::InvalidAddress) => !has_colon(s@),
            _ => false,
        },
{
    match find_byte(s, 0, 58) {
        Some(_) => Ok(IpAddress::V6),
        None => Err(ServiceError::InvalidAddress),
    }
}

/// Reads one registry row.  Canonical dotted-quad text yields the IPv4
/// address it denotes; text holding a colon is classified as IPv6, whose
/// content the pipeline never inspects; everything else is rejected.
pub fn parse_ip(s: &Vec<u8>) -> (r: Result<IpAddress, ServiceError>)
    ensures
        forall|ip: Ip| s@ == spec_format_ip(ip) ==> r == Ok::<IpAddress, ServiceError>(
            IpAddress::V4(ip),
        ),
        match r {
            Ok(IpAddress::V4(ip)) => s@ == spec_format_ip(ip),
            Ok(IpAddress::V6) => has_colon(s@) && !canonical_v4(s@),
            Err(ServiceError::InvalidAddress) => !has_colon(s@) && !canonical_v4(s@),
            Err(_) => false,
        },
{
    match parse_ip_canonical(s) {
        Some(ip) => {
            proof {
                assert forall|ip2: Ip| s@ == spec_format_ip(ip2) implies ip2 == ip by {
                    lemma_format_ip_injective(ip, ip2);
                }
            }
            Ok(IpAddress::V4(ip))
        },
        None => classify_non_v4(s),
    }
}

spec fn dot1(ip: Ip) -> int {
    spec_format_octet(ip.a as int).len() as int
}

spec fn dot2(ip: Ip) -> int {
    dot1(ip) + 1 + spec_format_octet(ip.b as int).len() as int
}

spec fn dot3(ip: Ip) -> int {
    dot2(ip) + 1 + spec_format_octet(ip.c as int).len() as int
}

proof fn lemma_first_dot_from(s: Seq<u8>, ip: Ip, start: int, p: int)
    requires
        s == spec_format_ip(ip),
        start == 0 || start == dot1(ip) + 1 || start == dot2(ip) + 1,
        start <= p < s.len(),
        s[p] == 46,
        forall|k: int| start <= k < p ==> s[k] != 46,
    ensures
        start == 0 ==> p == dot1(ip),
        start == dot1(ip) + 1 ==> p == dot2(ip),
        start == dot2(ip) + 1 ==> p == dot3(ip),
{
    lemma_format_ip_dots(ip);
}

/// Canonical texts of distinct addresses differ.
pub proof fn lemma_format_ip_injective(ip1: Ip, ip2: Ip)
    requires
        spec_format_ip(ip1) == spec_format_ip(ip2),
    ensures
        ip1 == ip2,
{
    lemma_format_ip_dots(ip1);
    lemma_format_ip_dots(ip2);
    let s = spec_format_ip(ip1);
    lemma_first_dot_from(s, ip2, 0, dot1(ip1));
    assert(dot1(ip1) == dot1(ip2));
    lemma_first_dot_from(s, ip2, dot1(ip1) + 1, dot2(ip1));
    assert(dot2(ip1) == dot2(ip2));
    lemma_first_dot_from(s, ip2, dot2(ip1) + 1, dot3(ip1));
    assert(dot3(ip1) == dot3(ip2));
    lemma_format_octet_injective(ip1.a as int, ip2.a as int);
    lemma_format_octet_injective(ip1.b as int, ip2.b as int);
    lemma_format_octet_injective(ip1.c as int, ip2.c as int);
    lemma_format_octet_injective(ip1.d as int, ip2.d as int);
}

#[verifier::rlimit(80)]
fn parse_ip_canonical(s: &Vec<u8>) -> (r: Option<Ip>)
    ensures
        match r {
            Some(ip) => s@ == spec_format_ip(ip),
            None => !canonical_v4(s@),
        },
{
    let end = s.len();
    let p1 = match find_byte(s, 0, 46) {
        Some(j) => j,
        None => {
            proof {
                assert forall|ip: Ip| s@ != spec_format_ip(ip) by {
                    if s@ == spec_format_ip(ip) {
                        lemma_format_ip_dots(ip);
                        assert(s@[dot1(ip)] == 46);
                    }
                }
            }
            return None;
        },
    };
    let p2 = match find_byte(s, p1 + 1, 46) {
        Some(j) => j,
        None => {
            proof {
                assert forall|ip: Ip| s@ != spec_format_ip(ip) by {
                    if s@ == spec_format_ip(ip) {
                        lemma_format_ip_dots(ip);
                        lemma_first_dot_from(s@, ip, 0, p1 as int);
                        assert(s@[dot2(ip)] == 46);
                    }
                }
            }
            return None;
        },
    };
    let p3 = match find_byte(s, p2 + 1, 46) {
        Some(j) => j,
        None => {
            proof {
                assert forall|ip: Ip| s@ != spec_format_ip(ip) by {
                    if s@ == spec_format_ip(ip) {
                        lemma_format_ip_dots(ip);
                        lemma_first_dot_from(s@, ip, 0, p1 as int);
                        lemma_first_dot_from(s@, ip, p1 as int + 1, p2 as int);
                        assert(s@[dot3(ip)] == 46);
                    }
                }
            }
            return None;
        },
    };
    match find_byte(s, p3 + 1, 46) {
        Some(j4) => {
            proof {
                assert forall|ip: Ip| s@ != spec_format_ip(ip) by {
                    if s@ == spec_format_ip(ip) {
                        lemma_format_ip_dots(ip);
                        lemma_first_dot_from(s@, ip, 0, p1 as int);
                        lemma_first_dot_from(s@, ip, p1 as int + 1, p2 as int);
                        lemma_first_dot_from(s@, ip, p2 as int + 1, p3 as int);
                        assert(is_digit(s@[j4 as int]));
                    }
                }
            }
            return None;
        },
        None => {},
    }
    let a = parse_octet(s, 0, p1);
    let b = parse_octet(s, p1 + 1, p2);
    let c = parse_octet(s, p2 + 1, p3);
    let d = parse_octet(s, p3 + 1, end);
    match (a, b, c, d) {
        (Some(a), Some(b), Some(c), Some(d)) => {
            let ip = Ip { a, b, c, d };
            proof {
                assert(s@ =~= s@.subrange(0, p1 as int) + seq![46u8] + s@.subrange(
                    p1 as int + 1,
                    p2 as int,
                ) + seq![46u8] + s@.subrange(p2 as int + 1, p3 as int) + seq![46u8] + s@.subrange(
                    p3 as int + 1,
                    s@.len() as int,
                ));
            }
            Some(ip)
        },
        _ => {
            proof {
                assert forall|ip: Ip| s@ != spec_format_ip(ip) by {
                    if s@ == spec_format_ip(ip) {
                        lemma_format_ip_dots(ip);
                        lemma_first_dot_from(s@, ip, 0, p1 as int);
                        lemma_first_dot_from(s@, ip, p1 as int + 1, p2 as int);
                        lemma_first_dot_from(s@, ip, p2 as int + 1, p3 as int);
                    }
                }
            }
            None
        },
    }
}


/// One persisted assignment, as stored: the address text and the hostname.
pub struct ClientRegistration {
    pub ip: Vec<u8>,
    pub hostname: String,
}

/// True when some stored row carries the canonical text of `ip`.
pub open spec fn spec_has_ip(rows: Seq<ClientRegistration>, ip: Ip) -> bool {
    exists|i: int| 0 <= i < rows.len() && rows[i].ip@ == spec_format_ip(ip)
}

/// True when no two stored rows carry the same address text.
pub open spec fn unique_addresses(rows: Seq<ClientRegistration>) -> bool {
    forall|i: int, j: int| 0 <= i < j < rows.len() ==> rows[i].ip@ != rows[j].ip@
}

/// The IPv4 address a canonical row denotes; meaningful only when
/// `canonical_v4(s)` holds.
pub open spec fn row_ip(s: Seq<u8>) -> Ip {
    choose|ip: Ip| s == spec_format_ip(ip)
}

/// The pool a sequence of rows describes: each canonical row contributes
/// its IPv4 address, every other row stands for a foreign family.
pub open spec fn rows_addrs(rows: Seq<ClientRegistration>) -> Seq<IpAddress> {
    rows.map(
        |i: int, r: ClientRegistration|
            if canonical_v4(r.ip@) {
                IpAddress::V4(row_ip(r.ip@))
            } else {
                IpAddress::V6
            },
    )
}

/// The index of the first row that is not canonical IPv4 text, or the row
/// count when every row is canonical.
pub open spec fn first_bad_row(rows: Seq<ClientRegistration>) -> int
    decreases rows.len(),
{
    if rows.len() == 0 {
        0
    } else if !canonical_v4(rows[0].ip@) {
        0
    } else {
        1 + first_bad_row(rows.drop_first())
    }
}

proof fn lemma_first_bad_row(rows: Seq<ClientRegistration>, i: int)
    requires
        0 <= i <= rows.len(),
        forall|j: int| 0 <= j < i ==> canonical_v4(#[trigger] rows[j].ip@),
        i < rows.len() ==> !canonical_v4(rows[i].ip@),
    ensures
        first_bad_row(rows) == i,
    decreases i,
{
    if i > 0 {
        assert(forall|j: int|
            0 <= j < i - 1 ==> canonical_v4(#[trigger] rows.drop_first()[j].ip@));
        lemma_first_bad_row(rows.drop_first(), i - 1);
    }
}

/// The whole allocation decision over raw registry rows: the first row that
/// is not canonical IPv4 text decides the error (IPv6-looking text is a
/// family error, anything else is unreadable), otherwise the gap-scanning
/// allocator judges the parsed pool.
pub open spec fn spec_alloc(rows: Seq<ClientRegistration>, base: Ip) -> Result<Ip, ServiceError> {
    let fb = first_bad_row(rows);
    if fb < rows.len() {
        if has_colon(rows[fb].ip@) {
            Err(ServiceError::UnsupportedAddressFamily)
        } else {
            Err(ServiceError::InvalidAddress)
        }
    } else if spec_candidate(rows_addrs(rows)) > 254 {
        Err(ServiceError::PoolExhausted)
    } else {
        Ok(spec_next_ip(rows_addrs(rows), base))
    }
}

fn bytes_eq(a: &Vec<u8>, b: &Vec<u8>) -> (r: bool)
    ensures
        r <==> a@ == b@,
{
    if a.len() != b.len() {
        return false;
    }
    let mut i: usize = 0;
    while i < a.len()
        invariant
            i <= a@.len(),
            a@.len() == b@.len(),
            forall|k: int| 0 <= k < i ==> a@[k] == b@[k],
        decreases a@.len() - i,
    {
        if a[i] != b[i] {
            return false;
        }
        i = i + 1;
    }
    proof {
        assert(a@ =~= b@);
    }
    true
}

/// The registry of provisioned nodes, modelled as the sequence of rows the
/// storage holds.  The storage layer itself enforces address uniqueness:
/// `register` refuses an address whose text is already present.
pub struct IpService {
    pub rows: Vec<ClientRegistration>,
}

impl IpService {
    pub fn new() -> (r: IpService)
        ensures
            r.rows@.len() == 0,
    {
        IpService { rows: Vec::new() }
    }

    /// Durably records one assignment.  Succeeds exactly when the address
    /// is not yet present, appending one row; an address already present is
    /// refused with `DuplicateAddress` and nothing changes.
    pub fn register(&mut self, ip: &Ip, hostname: &str) -> (r: Result<(), ServiceError>)
        ensures
            match r {
                Ok(()) => ({
                    &&& !spec_has_ip(old(self).rows@, *ip)
                    &&& final(self).rows@.len() == old(self).rows@.len() + 1
                    &&& final(self).rows@.last().ip@ == spec_format_ip(*ip)
                    &&& final(self).rows@.last().hostname@ == hostname@
                    &&& final(self).rows@.drop_last() == old(self).rows@
                }),
                Err(ServiceError::DuplicateAddress) => spec_has_ip(old(self).rows@, *ip)
                    && *final(self) == *old(self),
                Err(_) => false,
            },
    {
        let text = format_ip(ip);
        let mut i: usize = 0;
        while i < self.rows.len()
            invariant
                i <= self.rows@.len(),
                text@ == spec_format_ip(*ip),
                forall|k: int| 0 <= k < i ==> self.rows@[k].ip@ != text@,
        decreases self.rows@.len() - i,
        {
            if bytes_eq(&self.rows[i].ip, &text) {
                return Err(ServiceError::DuplicateAddress);
            }
            i = i + 1;
        }
        self.rows.push(ClientRegistration { ip: text, hostname: hostname.to_owned() });
        proof {
            assert(self.rows@.drop_last() =~= old(self).rows@);
        }
        Ok(())
    }

    /// The compute half of allocation: reads the stored rows in order,
    /// stops at the first row that is not an IPv4 address, and otherwise
    /// hands the parsed pool to the gap-scanning allocator.
    pub fn get_next_available_ip(&self, base: &Ip) -> (r: Result<Ip, ServiceError>)
        ensures
            r == spec_alloc(self.rows@, *base),
    {
        let mut addrs: Vec<IpAddress> = Vec::new();
        let mut i: usize = 0;
        while i < self.rows.len()
            invariant
                i <= self.rows@.len(),
                addrs@.len() == i,
                forall|j: int| 0 <= j < i ==> canonical_v4(#[trigger] self.rows@[j].ip@),
                forall|j: int| 0 <= j < i ==> addrs@[j] == rows_addrs(self.rows@)[j],
            decreases self.rows@.len() - i,
        {
            match parse_ip(&self.rows[i].ip) {
                Ok(IpAddress::V4(ip)) => {
                    proof {
                        let w = row_ip(self.rows@[i as int].ip@);
                        assert(self.rows@[i as int].ip@ == spec_format_ip(w));
                        lemma_format_ip_injective(ip, w);
                    }
                    addrs.push(IpAddress::V4(ip));
                },
                Ok(IpAddress::V6) => {
                    proof {
                        lemma_first_bad_row(self.rows@, i as int);
                    }
                    return Err(ServiceError::UnsupportedAddressFamily);
                },
                Err(e) => {
                    proof {
                        lemma_first_bad_row(self.rows@, i as int);
                    }
                    return Err(e);
                },
            }
            i = i + 1;
        }
        proof {
            lemma_first_bad_row(self.rows@, self.rows@.len() as int);
            assert(addrs@ =~= rows_addrs(self.rows@));
            assert forall|j: int| 0 <= j < addrs@.len() implies !((#[trigger] addrs@[j]) is V6) by {
                assert(addrs@[j] == rows_addrs(self.rows@)[j]);
            }
        }
        next_free_addr_v4(&addrs, base)
    }
}

/// No two provisioning jobs can persist the same address: a registry whose
/// stored addresses are pairwise distinct keeps them distinct across any
/// successful registration, because `register` accepts only an address whose
/// text is absent.
pub proof fn lemma_register_preserves_uniqueness(
    old_rows: Seq<ClientRegistration>,
    new_rows: Seq<ClientRegistration>,
    ip: Ip,
)
    requires
        unique_addresses(old_rows),
        !spec_has_ip(old_rows, ip),
        new_rows.len() == old_rows.len() + 1,
        new_rows.last().ip@ == spec_format_ip(ip),
        new_rows.drop_last() == old_rows,
    ensures
        unique_addresses(new_rows),
{
    assert forall|i: int, j: int| 0 <= i < j < new_rows.len() implies new_rows[i].ip@
        != new_rows[j].ip@ by {
        assert(forall|k: int| 0 <= k < old_rows.len() ==> new_rows[k] == old_rows[k]);
        if j == new_rows.len() - 1 {
            if new_rows[i].ip@ == new_rows[j].ip@ {
                assert(old_rows[i].ip@ == spec_format_ip(ip));
            }
        }
    }
}

} // verus!

