//! IP addresses: their text, their IPv4-mapped forms and their ranges.

use crate::number::{numeral, plain_number, read_number, write_number};
use crate::text::{
    chars_of, find, find_char, find_pattern, find_text, lemma_find_from, lemma_find_text_from, part,
};
use vstd::prelude::*;

verus! {

/// An IP address: four octets, or eight groups of 16 bits.
#[derive(Debug, Clone, Copy, PartialEq, Eq)]
pub enum IpAddr {
    V4([u8; 4]),
    V6([u16; 8]),
}

/// An IP address as a sequence of octets or of groups.
#[verifier::ext_equal]
pub enum Address {
    V4(Seq<u8>),
    V6(Seq<u16>),
}

impl View for IpAddr {
    type V = Address;

    open spec fn view(&self) -> Address {
        match self {
            IpAddr::V4(octets) => Address::V4(octets@),
            IpAddr::V6(groups) => Address::V6(groups@),
        }
    }
}

/// The address in an option.
pub open spec fn opt_address(ip: Option<IpAddr>) -> Option<Address> {
    match ip {
        Some(a) => Some(a@),
        None => None,
    }
}

/// Four octets, or eight groups.
pub open spec fn sized(a: Address) -> bool {
    match a {
        Address::V4(octets) => octets.len() == 4,
        Address::V6(groups) => groups.len() == 8,
    }
}

/// The length of an address in bits.
pub open spec fn width(a: Address) -> int {
    match a {
        Address::V4(_) => 32,
        Address::V6(_) => 128,
    }
}

// ---------------------------------------------------------------- reading

/// One octet in decimal: at most three digits, and no needless leading zero.
pub open spec fn octet(s: Seq<char>) -> Option<u8> {
    if s.len() > 3 || (s.len() > 1 && s[0] == '0') {
        None
    } else {
        match plain_number(s, 10, 255) {
            Some(n) => Some(n as u8),
            None => None,
        }
    }
}

/// `n` octets with dots between them.
pub open spec fn dotted(s: Seq<char>, n: nat) -> Option<Seq<u8>>
    decreases n,
{
    if n <= 1 {
        match octet(s) {
            Some(o) => Some(seq![o]),
            None => None,
        }
    } else {
        let i = find(s, '.');
        if i == s.len() {
            None
        } else {
            match (octet(s.take(i)), dotted(s.skip(i + 1), (n - 1) as nat)) {
                (Some(o), Some(rest)) => Some(seq![o] + rest),
                _ => None,
            }
        }
    }
}

/// One group in hexadecimal: at most four digits.
pub open spec fn group(s: Seq<char>) -> Option<u16> {
    if s.len() > 4 {
        None
    } else {
        match plain_number(s, 16, 0xffff) {
            Some(n) => Some(n as u16),
            None => None,
        }
    }
}

/// The two groups that four octets fill.
pub open spec fn octet_groups(o: Seq<u8>) -> Seq<u16> {
    seq![(o[0] * 256 + o[1]) as u16, (o[2] * 256 + o[3]) as u16]
}

/// Groups with colons between them. Where `v4_last` holds, a dotted IPv4
/// address may stand for the last two.
pub open spec fn groups(s: Seq<char>, v4_last: bool) -> Option<Seq<u16>>
    decreases s.len(),
{
    let i = find(s, ':');
    if i < 0 || i >= s.len() {
        match dotted(s, 4) {
            Some(o) if v4_last => Some(octet_groups(o)),
            _ => match group(s) {
                Some(g) => Some(seq![g]),
                None => None,
            },
        }
    } else {
        match (group(s.take(i)), groups(s.skip(i + 1), v4_last)) {
            (Some(g), Some(rest)) => Some(seq![g] + rest),
            _ => None,
        }
    }
}

/// What stands on one side of `::`, where nothing at all is no group.
pub open spec fn side(s: Seq<char>, v4_last: bool) -> Option<Seq<u16>> {
    if s.len() == 0 {
        Some(Seq::empty())
    } else {
        groups(s, v4_last)
    }
}

/// `n` groups of zeros.
pub open spec fn zeros(n: int) -> Seq<u16> {
    Seq::new(n as nat, |i: int| 0u16)
}

/// Eight groups, or fewer with one `::` that stands for at least one group of
/// zeros. An IPv4 address may end the text.
pub open spec fn v6_groups(s: Seq<char>) -> Option<Seq<u16>> {
    let i = find_text(s, "::"@);
    if i == s.len() {
        match groups(s, true) {
            Some(g) if g.len() == 8 => Some(g),
            _ => None,
        }
    } else {
        match (side(s.take(i), false), side(s.skip(i + 2), true)) {
            (Some(head), Some(tail)) if head.len() + tail.len() <= 7 => Some(
                head + zeros(8 - head.len() - tail.len()) + tail,
            ),
            _ => None,
        }
    }
}

/// The address that a text writes.
pub open spec fn address(s: Seq<char>) -> Option<Address> {
    match dotted(s, 4) {
        Some(o) => Some(Address::V4(o)),
        None => match v6_groups(s) {
            Some(g) => Some(Address::V6(g)),
            None => None,
        },
    }
}

proof fn lemma_groups_nonempty(s: Seq<char>, v4_last: bool)
    ensures
        groups(s, v4_last) matches Some(g) ==> g.len() > 0,
{
}

pub proof fn lemma_dotted_len(s: Seq<char>, n: nat)
    requires
        n >= 1,
    ensures
        dotted(s, n) matches Some(o) ==> o.len() == n,
    decreases n,
{
    if n > 1 {
        let i = find(s, '.');
        lemma_find_from(s, '.', 0);
        if i < s.len() {
            lemma_dotted_len(s.skip(i + 1), (n - 1) as nat);
        }
    }
}

fn read_octet(s: &str) -> (r: Option<u8>)
    ensures
        r == octet(s@),
{
    let v = chars_of(s);
    if v.len() > 3 || (v.len() > 1 && v[0] == '0') {
        return None;
    }
    match read_number(s, 10, 255) {
        Some(n) => Some(n as u8),
        None => None,
    }
}

fn read_group(s: &str) -> (r: Option<u16>)
    ensures
        r == group(s@),
{
    let v = chars_of(s);
    if v.len() > 4 {
        return None;
    }
    match read_number(s, 16, 0xffff) {
        Some(n) => Some(n as u16),
        None => None,
    }
}

fn read_dotted(s: &str, n: u8) -> (r: Option<Vec<u8>>)
    requires
        1 <= n,
    ensures
        match r {
            Some(o) => dotted(s@, n as nat) == Some(o@),
            None => dotted(s@, n as nat) is None,
        },
    decreases n,
{
    if n == 1 {
        return match read_octet(s) {
            Some(o) => {
                let mut one: Vec<u8> = Vec::new();
                one.push(o);
                assert(one@ =~= seq![o]);
                Some(one)
            },
            None => None,
        };
    }
    let v = chars_of(s);
    let i = find_char(&v, '.');
    if i == v.len() {
        return None;
    }
    proof {
        lemma_find_from(s@, '.', 0);
        assert(s@.take(i as int) =~= s@.subrange(0, i as int));
        assert(s@.skip(i + 1) =~= s@.subrange(i + 1, s@.len() as int));
    }
    match (read_octet(part(s, 0, i)), read_dotted(part(s, i + 1, v.len()), n - 1)) {
        (Some(o), Some(rest)) => {
            let mut all: Vec<u8> = Vec::new();
            all.push(o);
            let mut rest = rest;
            let ghost tail = rest@;
            all.append(&mut rest);
            assert(all@ =~= seq![o] + tail);
            Some(all)
        },
        _ => None,
    }
}

/// Reads groups, and gives up once there are more than `most`.
fn read_groups(s: &str, v4_last: bool, most: u8) -> (r: Option<Vec<u16>>)
    ensures
        match r {
            Some(g) => groups(s@, v4_last) == Some(g@),
            None => match groups(s@, v4_last) {
                Some(g) => g.len() > most,
                None => true,
            },
        },
    decreases most,
{
    proof {
        lemma_groups_nonempty(s@, v4_last);
    }
    if most == 0 {
        return None;
    }
    let v = chars_of(s);
    let i = find_char(&v, ':');
    proof {
        lemma_find_from(s@, ':', 0);
        lemma_dotted_len(s@, 4);
    }
    if i == v.len() {
        if v4_last {
            if let Some(o) = read_dotted(s, 4) {
                let mut two: Vec<u16> = Vec::new();
                two.push(o[0] as u16 * 256 + o[1] as u16);
                two.push(o[2] as u16 * 256 + o[3] as u16);
                assert(two@ =~= octet_groups(o@));
                return Some(two);
            }
        }
        return match read_group(s) {
            Some(g) => {
                let mut one: Vec<u16> = Vec::new();
                one.push(g);
                assert(one@ =~= seq![g]);
                Some(one)
            },
            None => None,
        };
    }
    proof {
        assert(s@.take(i as int) =~= s@.subrange(0, i as int));
        assert(s@.skip(i + 1) =~= s@.subrange(i + 1, s@.len() as int));
    }
    match (read_group(part(s, 0, i)), read_groups(part(s, i + 1, v.len()), v4_last, most - 1)) {
        (Some(g), Some(rest)) => {
            let mut all: Vec<u16> = Vec::new();
            all.push(g);
            let mut rest = rest;
            let ghost tail = rest@;
            all.append(&mut rest);
            assert(all@ =~= seq![g] + tail);
            Some(all)
        },
        _ => None,
    }
}

fn read_side(s: &str, v4_last: bool) -> (r: Option<Vec<u16>>)
    ensures
        match r {
            Some(g) => side(s@, v4_last) == Some(g@),
            None => match side(s@, v4_last) {
                Some(g) => g.len() > 8,
                None => true,
            },
        },
{
    if s.is_empty() {
        let none: Vec<u16> = Vec::new();
        assert(none@ =~= Seq::<u16>::empty());
        Some(none)
    } else {
        read_groups(s, v4_last, 8)
    }
}

fn read_v6(s: &str) -> (r: Option<Vec<u16>>)
    ensures
        match r {
            Some(g) => v6_groups(s@) == Some(g@),
            None => v6_groups(s@) is None,
        },
{
    let v = chars_of(s);
    let i = find_pattern(&v, &chars_of("::"));
    proof {
        reveal_strlit("::");
        lemma_find_text_from(s@, "::"@, 0);
    }
    if i == v.len() {
        return match read_groups(s, true, 8) {
            Some(g) => if g.len() == 8 {
                Some(g)
            } else {
                None
            },
            None => None,
        };
    }
    proof {
        assert(s@.take(i as int) =~= s@.subrange(0, i as int));
        assert(s@.skip(i + 2) =~= s@.subrange(i + 2, s@.len() as int));
    }
    match (read_side(part(s, 0, i), false), read_side(part(s, i + 2, v.len()), true)) {
        (Some(head), Some(tail)) => {
            if head.len() > 7 || tail.len() > 7 - head.len() {
                return None;
            }
            let ghost h = head@;
            let ghost t = tail@;
            let gap: usize = 8 - head.len() - tail.len();
            let mut all = head;
            let mut k: usize = 0;
            while k < gap
                invariant
                    k <= gap,
                    all@ == h + zeros(k as int),
                decreases gap - k,
            {
                all.push(0);
                assert(all@ =~= h + zeros(k + 1));
                k += 1;
            }
            let mut tail = tail;
            all.append(&mut tail);
            assert(all@ =~= h + zeros(gap as int) + t);
            Some(all)
        },
        _ => None,
    }
}

/// Reads an address.
pub fn parse_ip(s: &str) -> (r: Option<IpAddr>)
    ensures
        opt_address(r) == address(s@),
{
    proof {
        lemma_dotted_len(s@, 4);
    }
    if let Some(o) = read_dotted(s, 4) {
        let octets: [u8; 4] = [o[0], o[1], o[2], o[3]];
        assert(octets@ =~= o@);
        return Some(IpAddr::V4(octets));
    }
    match read_v6(s) {
        Some(g) => {
            assert(g@.len() == 8);
            let all: [u16; 8] = [g[0], g[1], g[2], g[3], g[4], g[5], g[6], g[7]];
            assert(all@ =~= g@);
            Some(IpAddr::V6(all))
        },
        None => None,
    }
}

// ---------------------------------------------------------------- writing

/// Octets in decimal, with dots between them.
pub open spec fn dotted_text(o: Seq<u8>) -> Seq<char>
    decreases o.len(),
{
    if o.len() == 0 {
        Seq::empty()
    } else if o.len() == 1 {
        numeral(o[0] as int, 10)
    } else {
        numeral(o[0] as int, 10) + seq!['.'] + dotted_text(o.skip(1))
    }
}

/// Groups in hexadecimal, with colons between them.
pub open spec fn groups_text(g: Seq<u16>) -> Seq<char>
    decreases g.len(),
{
    if g.len() == 0 {
        Seq::empty()
    } else if g.len() == 1 {
        numeral(g[0] as int, 16)
    } else {
        numeral(g[0] as int, 16) + seq![':'] + groups_text(g.skip(1))
    }
}

/// How many groups of zeros follow one another from position `i` on.
pub open spec fn zero_run(g: Seq<u16>, i: int) -> int
    decreases g.len() - i,
{
    if 0 <= i < g.len() && g[i] == 0 {
        1 + zero_run(g, i + 1)
    } else {
        0
    }
}

/// The first position from `i` on at which a longest run of zeros begins.
pub open spec fn longest_run(g: Seq<u16>, i: int) -> int
    decreases g.len() - i,
{
    if i >= g.len() {
        g.len() as int
    } else {
        let later = longest_run(g, i + 1);
        if zero_run(g, i) >= zero_run(g, later) {
            i
        } else {
            later
        }
    }
}

/// The eight groups of an IPv4-mapped address.
pub open spec fn is_mapped(g: Seq<u16>) -> bool {
    &&& forall|i: int| 0 <= i < 5 ==> #[trigger] g[i] == 0
    &&& g[5] == 0xffff
}

/// The four octets that an IPv4-mapped address holds.
pub open spec fn mapped_octets(g: Seq<u16>) -> Seq<u8> {
    seq![(g[6] / 256) as u8, (g[6] % 256) as u8, (g[7] / 256) as u8, (g[7] % 256) as u8]
}

/// The text of an IPv6 address: `::` for the first of the longest runs of at
/// least two groups of zeros, and the dotted form of an IPv4-mapped address.
pub open spec fn v6_text(g: Seq<u16>) -> Seq<char> {
    let start = longest_run(g, 0);
    let run = zero_run(g, start);
    if is_mapped(g) {
        "::ffff:"@ + dotted_text(mapped_octets(g))
    } else if run > 1 {
        groups_text(g.take(start)) + "::"@ + groups_text(g.skip(start + run))
    } else {
        groups_text(g)
    }
}

/// The text of an address.
pub open spec fn address_text(a: Address) -> Seq<char> {
    match a {
        Address::V4(o) => dotted_text(o),
        Address::V6(g) => v6_text(g),
    }
}

pub proof fn lemma_zero_run(g: Seq<u16>, i: int)
    requires
        0 <= i <= g.len(),
    ensures
        0 <= zero_run(g, i) <= g.len() - i,
        forall|j: int| i <= j < i + zero_run(g, i) ==> #[trigger] g[j] == 0,
    decreases g.len() - i,
{
    if i < g.len() && g[i] == 0 {
        lemma_zero_run(g, i + 1);
    }
}

pub proof fn lemma_longest_run(g: Seq<u16>, i: int)
    requires
        0 <= i <= g.len(),
    ensures
        i <= longest_run(g, i) <= g.len(),
    decreases g.len() - i,
{
    if i < g.len() {
        lemma_longest_run(g, i + 1);
    }
}

fn write_dotted(o: &[u8; 4], from: usize) -> (r: String)
    requires
        from <= 3,
    ensures
        r@ == dotted_text(o@.skip(from as int)),
    decreases 4 - from,
{
    let ghost s = o@.skip(from as int);
    let mut r = write_number(o[from] as u32, 10);
    if from < 3 {
        r.push('.');
        assert(s.skip(1) =~= o@.skip(from + 1));
        r.append(write_dotted(o, from + 1).as_str());
        assert(r@ =~= dotted_text(s));
    }
    r
}

fn write_groups(g: &[u16; 8], from: usize, to: usize) -> (r: String)
    requires
        from <= to <= 8,
    ensures
        r@ == groups_text(g@.subrange(from as int, to as int)),
    decreases to - from,
{
    let ghost s = g@.subrange(from as int, to as int);
    if from == to {
        let r = String::new();
        assert(r@ =~= groups_text(s));
        return r;
    }
    let mut r = write_number(g[from] as u32, 16);
    if from + 1 < to {
        r.push(':');
        assert(s.skip(1) =~= g@.subrange(from + 1, to as int));
        r.append(write_groups(g, from + 1, to).as_str());
        assert(r@ =~= groups_text(s));
    }
    r
}

fn count_zeros(g: &[u16; 8], i: usize) -> (r: usize)
    requires
        i <= 8,
    ensures
        r == zero_run(g@, i as int),
        i + r <= 8,
    decreases 8 - i,
{
    if i < 8 && g[i] == 0 {
        1 + count_zeros(g, i + 1)
    } else {
        0
    }
}

fn find_longest_run(g: &[u16; 8], i: usize) -> (r: usize)
    requires
        i <= 8,
    ensures
        r == longest_run(g@, i as int),
        i <= r <= 8,
    decreases 8 - i,
{
    if i == 8 {
        return 8;
    }
    let later = find_longest_run(g, i + 1);
    if count_zeros(g, i) >= count_zeros(g, later) {
        i
    } else {
        later
    }
}

/// The IPv4 address that an IPv4-mapped address holds.
fn unmap(g: &[u16; 8]) -> (r: Option<[u8; 4]>)
    ensures
        match r {
            Some(o) => is_mapped(g@) && o@ == mapped_octets(g@),
            None => !is_mapped(g@),
        },
{
    if g[0] == 0 && g[1] == 0 && g[2] == 0 && g[3] == 0 && g[4] == 0 && g[5] == 0xffff {
        let o: [u8; 4] = [
            (g[6] / 256) as u8,
            (g[6] % 256) as u8,
            (g[7] / 256) as u8,
            (g[7] % 256) as u8,
        ];
        assert(o@ =~= mapped_octets(g@));
        Some(o)
    } else {
        None
    }
}

impl IpAddr {
    /// The text of the address.
    pub fn text(&self) -> (r: String)
        ensures
            r@ == address_text(self@),
    {
        match self {
            IpAddr::V4(o) => {
                assert(o@.skip(0) =~= o@);
                write_dotted(o, 0)
            },
            IpAddr::V6(g) => {
                if let Some(o) = unmap(g) {
                    let mut r = "::ffff:".to_owned();
                    assert(o@.skip(0) =~= o@);
                    r.append(write_dotted(&o, 0).as_str());
                    return r;
                }
                let start = find_longest_run(g, 0);
                let run = count_zeros(g, start);
                if run > 1 {
                    let mut r = write_groups(g, 0, start);
                    r.append("::");
                    r.append(write_groups(g, start + run, 8).as_str());
                    assert(g@.subrange(0, start as int) =~= g@.take(start as int));
                    assert(g@.subrange(start + run, 8) =~= g@.skip(start + run));
                    r
                } else {
                    assert(g@.subrange(0, 8) =~= g@);
                    write_groups(g, 0, 8)
                }
            },
        }
    }

    /// Whether this is an IPv6 address.
    pub fn is_ipv6(&self) -> (r: bool)
        ensures
            r == (self@ is V6),
    {
        match self {
            IpAddr::V4(_) => false,
            IpAddr::V6(_) => true,
        }
    }

    /// Whether this is a loopback address.
    pub fn is_loopback(&self) -> (r: bool)
        ensures
            r == loopback(self@),
    {
        match self {
            IpAddr::V4(o) => o[0] == 127,
            IpAddr::V6(g) => g[0] == 0 && g[1] == 0 && g[2] == 0 && g[3] == 0 && g[4] == 0 && g[5]
                == 0 && g[6] == 0 && g[7] == 1,
        }
    }

    /// Whether two addresses are the same.
    pub fn same(&self, other: &IpAddr) -> (r: bool)
        ensures
            r == (self@ == other@),
    {
        match (self, other) {
            (IpAddr::V4(a), IpAddr::V4(b)) => {
                let r = a[0] == b[0] && a[1] == b[1] && a[2] == b[2] && a[3] == b[3];
                assert(r ==> a@ =~= b@);
                r
            },
            (IpAddr::V6(a), IpAddr::V6(b)) => {
                let r = a[0] == b[0] && a[1] == b[1] && a[2] == b[2] && a[3] == b[3] && a[4] == b[4]
                    && a[5] == b[5] && a[6] == b[6] && a[7] == b[7];
                assert(r ==> a@ =~= b@);
                r
            },
            _ => false,
        }
    }
}

// ---------------------------------------------------------------- meaning

/// 127.0.0.0/8 and ::1.
pub open spec fn loopback(a: Address) -> bool {
    match a {
        Address::V4(o) => o[0] == 127,
        Address::V6(g) => g[7] == 1 && forall|i: int| 0 <= i < 7 ==> #[trigger] g[i] == 0,
    }
}

/// The one form of an address and its IPv4-mapped twin: the IPv4 form.
pub open spec fn normal(a: Address) -> Address {
    match a {
        Address::V6(g) if is_mapped(g) => Address::V4(mapped_octets(g)),
        _ => a,
    }
}

/// `::ffff:192.0.2.1` and `192.0.2.1` are the same address; store and compare
/// them as one so an IPv4 rule still covers a v4-mapped connection.
pub fn normalize_ip(ip: IpAddr) -> (r: IpAddr)
    ensures
        r@ == normal(ip@),
{
    match ip {
        IpAddr::V6(g) => match unmap(&g) {
            Some(o) => IpAddr::V4(o),
            None => ip,
        },
        IpAddr::V4(_) => ip,
    }
}

/// How many bits a range fixes of the normal form of its address. Of a range
/// that is written in the IPv4-mapped form a prefix counts in the IPv4 address,
/// of which it fixes no more than there is. Only a prefix that takes in the 96
/// bits which all mapped addresses share counts from the start of the mapped
/// form: it makes a range of mapped addresses alone.
pub open spec fn normal_bits(a: Address, prefix: int) -> int {
    if prefix <= 32 || normal(a) == a {
        prefix
    } else if prefix < 96 {
        32
    } else {
        prefix - 96
    }
}

/// The address of a range in its normal form, and how many bits the range fixes
/// of it.
pub fn normalize_range(ip: IpAddr, prefix: u8) -> (r: (IpAddr, u8))
    requires
        prefix <= width(ip@),
    ensures
        r.0@ == normal(ip@),
        r.1 == normal_bits(ip@, prefix as int),
        r.1 <= width(normal(ip@)),
{
    match ip {
        IpAddr::V6(g) => match unmap(&g) {
            Some(o) => {
                let bits: u8 = if prefix <= 32 {
                    prefix
                } else if prefix < 96 {
                    32
                } else {
                    prefix - 96
                };
                (IpAddr::V4(o), bits)
            },
            None => (ip, prefix),
        },
        IpAddr::V4(_) => (ip, prefix),
    }
}

/// The octets of an address, most significant first.
pub open spec fn octets(a: Address) -> Seq<u8> {
    match a {
        Address::V4(o) => o,
        Address::V6(g) => Seq::new(
            16,
            |i: int|
                if i % 2 == 0 {
                    (g[i / 2] / 256) as u8
                } else {
                    (g[i / 2] % 256) as u8
                },
        ),
    }
}

/// Bit `i` of a sequence of octets, counted from the most significant.
pub open spec fn bit(s: Seq<u8>, i: int) -> bool {
    (s[i / 8] >> ((7 - i % 8) as u8)) & 1 == 1
}

/// Two sequences of octets agree in their first `prefix` bits.
pub open spec fn agree(a: Seq<u8>, b: Seq<u8>, prefix: int) -> bool {
    forall|i: int| 0 <= i < prefix ==> #[trigger] bit(a, i) == bit(b, i)
}

/// How many bits of an address a prefix fixes: no more than it has.
pub open spec fn fixed_bits(network: Address, prefix: int) -> int {
    if prefix <= width(network) {
        prefix
    } else {
        width(network)
    }
}

/// An address lies in a range: it is of the same family, and the bits that the
/// prefix fixes are the same.
pub open spec fn in_range(network: Address, prefix: int, a: Address) -> bool {
    (network is V4) == (a is V4) && agree(octets(network), octets(a), fixed_bits(network, prefix))
}

/// Two octets agree in their first `r` bits exactly where they agree under the
/// mask of those bits.
pub proof fn lemma_octet_prefix(x: u8, y: u8, r: u8)
    requires
        1 <= r <= 8,
    ensures
        (x & (0xffu8 << ((8 - r) as u8)) == y & (0xffu8 << ((8 - r) as u8))) <==> (forall|k: int|
            0 <= k < r ==> #[trigger] octet_bit(x, k) == octet_bit(y, k)),
{
    let m = (8 - r) as u8;
    assert((x & (0xffu8 << m) == y & (0xffu8 << m)) <==> {
        &&& (m < 8 ==> ((x >> 7) & 1 == 1) == ((y >> 7) & 1 == 1))
        &&& (m < 7 ==> ((x >> 6) & 1 == 1) == ((y >> 6) & 1 == 1))
        &&& (m < 6 ==> ((x >> 5) & 1 == 1) == ((y >> 5) & 1 == 1))
        &&& (m < 5 ==> ((x >> 4) & 1 == 1) == ((y >> 4) & 1 == 1))
        &&& (m < 4 ==> ((x >> 3) & 1 == 1) == ((y >> 3) & 1 == 1))
        &&& (m < 3 ==> ((x >> 2) & 1 == 1) == ((y >> 2) & 1 == 1))
        &&& (m < 2 ==> ((x >> 1) & 1 == 1) == ((y >> 1) & 1 == 1))
        &&& (m < 1 ==> ((x >> 0) & 1 == 1) == ((y >> 0) & 1 == 1))
    }) by (bit_vector)
        requires
            m <= 7,
    ;
    let all = forall|k: int| 0 <= k < r ==> #[trigger] octet_bit(x, k) == octet_bit(y, k);
    if all {
        assert(0 < r ==> octet_bit(x, 0) == octet_bit(y, 0));
        assert(1 < r ==> octet_bit(x, 1) == octet_bit(y, 1));
        assert(2 < r ==> octet_bit(x, 2) == octet_bit(y, 2));
        assert(3 < r ==> octet_bit(x, 3) == octet_bit(y, 3));
        assert(4 < r ==> octet_bit(x, 4) == octet_bit(y, 4));
        assert(5 < r ==> octet_bit(x, 5) == octet_bit(y, 5));
        assert(6 < r ==> octet_bit(x, 6) == octet_bit(y, 6));
        assert(7 < r ==> octet_bit(x, 7) == octet_bit(y, 7));
    }
}

/// Bit `k` of an octet, counted from the most significant.
pub open spec fn octet_bit(x: u8, k: int) -> bool {
    (x >> ((7 - k) as u8)) & 1 == 1
}

/// Octets that agree bit by bit agree octet by octet, and the other way round.
pub proof fn lemma_agree_octets(a: Seq<u8>, b: Seq<u8>, prefix: int)
    requires
        0 <= prefix,
        prefix / 8 <= a.len(),
        prefix / 8 <= b.len(),
    ensures
        agree(a, b, prefix) <==> {
            &&& a.take(prefix / 8) == b.take(prefix / 8)
            &&& forall|k: int|
                0 <= k < prefix % 8 ==> #[trigger] octet_bit(a[prefix / 8], k) == octet_bit(
                    b[prefix / 8],
                    k,
                )
        },
{
    let w = prefix / 8;
    let r = prefix % 8;
    if agree(a, b, prefix) {
        assert forall|j: int| 0 <= j < w implies a[j] == b[j] by {
            assert forall|k: int| 0 <= k < 8 implies #[trigger] octet_bit(a[j], k) == octet_bit(
                b[j],
                k,
            ) by {
                assert(bit(a, 8 * j + k) == bit(b, 8 * j + k));
                assert((8 * j + k) / 8 == j && (8 * j + k) % 8 == k);
            }
            lemma_octet_prefix(a[j], b[j], 8);
            let x = a[j];
            let y = b[j];
            assert(x & (0xffu8 << 0u8) == x && y & (0xffu8 << 0u8) == y) by (bit_vector);
        }
        assert(a.take(w) =~= b.take(w));
        assert forall|k: int| 0 <= k < r implies #[trigger] octet_bit(a[w], k) == octet_bit(
            b[w],
            k,
        ) by {
            assert(bit(a, 8 * w + k) == bit(b, 8 * w + k));
            assert((8 * w + k) / 8 == w && (8 * w + k) % 8 == k);
        }
    }
    if a.take(w) == b.take(w) && (forall|k: int|
        0 <= k < r ==> #[trigger] octet_bit(a[w], k) == octet_bit(b[w], k)) {
        assert forall|i: int| 0 <= i < prefix implies #[trigger] bit(a, i) == bit(b, i) by {
            if i / 8 < w {
                assert(a.take(w)[i / 8] == b.take(w)[i / 8]);
            } else {
                assert(i / 8 == w && i % 8 < r);
                assert(octet_bit(a[w], i % 8) == octet_bit(b[w], i % 8));
            }
        }
    }
}

/// Whether two sequences of octets agree in their first `prefix` bits.
pub fn prefix_eq(network: &[u8], addr: &[u8], prefix: u8) -> (r: bool)
    requires
        prefix / 8 <= network@.len(),
        prefix / 8 <= addr@.len(),
        prefix % 8 != 0 && network@.take((prefix / 8) as int) == addr@.take((prefix / 8) as int) ==> (
        prefix / 8 < network@.len() && prefix / 8 < addr@.len()),
    ensures
        r == agree(network@, addr@, prefix as int),
{
    let whole: usize = (prefix / 8) as usize;
    proof {
        lemma_agree_octets(network@, addr@, prefix as int);
    }
    let mut i: usize = 0;
    while i < whole
        invariant
            i <= whole,
            whole <= network@.len(),
            whole <= addr@.len(),
            whole == prefix / 8,
            forall|j: int| 0 <= j < i ==> network@[j] == addr@[j],
            agree(network@, addr@, prefix as int) ==> network@.take(whole as int) == addr@.take(
                whole as int,
            ),
        decreases whole - i,
    {
        if network[i] != addr[i] {
            assert(network@.take(whole as int)[i as int] != addr@.take(whole as int)[i as int]);
            return false;
        }
        i += 1;
    }
    assert(network@.take(whole as int) =~= addr@.take(whole as int));
    let remainder: u8 = prefix % 8;
    if remainder == 0 {
        return true;
    }
    let mask: u8 = 0xffu8 << (8 - remainder);
    proof {
        lemma_octet_prefix(network@[whole as int], addr@[whole as int], remainder);
    }
    network[whole] & mask == addr[whole] & mask
}

/// The sixteen octets of eight groups.
fn group_octets(g: &[u16; 8]) -> (r: Vec<u8>)
    ensures
        r@ == octets(Address::V6(g@)),
{
    let mut r: Vec<u8> = Vec::new();
    let mut i: usize = 0;
    while i < 8
        invariant
            i <= 8,
            r@ == octets(Address::V6(g@)).take(2 * i),
        decreases 8 - i,
    {
        r.push((g[i] / 256) as u8);
        r.push((g[i] % 256) as u8);
        assert((2 * i + 1) / 2 == i && (2 * i + 1) % 2 == 1);
        assert(r@ =~= octets(Address::V6(g@)).take(2 * i + 2));
        i += 1;
    }
    assert(r@ =~= octets(Address::V6(g@)));
    r
}

/// Whether an address lies in a range.
pub fn cidr_contains(network: IpAddr, prefix: u8, addr: IpAddr) -> (r: bool)
    ensures
        r == in_range(network@, prefix as int, addr@),
{
    match (network, addr) {
        (IpAddr::V4(n), IpAddr::V4(a)) => {
            let bits: u8 = if prefix <= 32 {
                prefix
            } else {
                32
            };
            prefix_eq(n.as_slice(), a.as_slice(), bits)
        },
        (IpAddr::V6(n), IpAddr::V6(a)) => {
            let bits: u8 = if prefix <= 128 {
                prefix
            } else {
                128
            };
            prefix_eq(group_octets(&n).as_slice(), group_octets(&a).as_slice(), bits)
        },
        _ => false,
    }
}

/// What is read as an address has the size of one, and so has its normal form,
/// which is its own.
pub proof fn lemma_address_sized(s: Seq<char>)
    ensures
        address(s) matches Some(a) ==> sized(a) && sized(normal(a)) && normal(normal(a)) == normal(
            a,
        ),
{
    lemma_dotted_len(s, 4);
}

} // verus!
