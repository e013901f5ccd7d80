//! Socket addresses and their text form, `host:port`.
//!
//! The host is a dotted quad (`127.0.0.1`) or an IPv6 address in square
//! brackets (`[::1]`, `[fe80::1%3]`); the port is a decimal number up to
//! 65535.

use crate::text::{
    decimal_number, find_first, find_last, first_index, hex_group, last_index, lemma_first_index,
    lemma_hex_value_bound, lemma_last_index, lemma_split_nonempty, next_field, octet_number,
    parse_decimal, parse_hex_group, parse_octet, split, CLOSE_BRACKET, COLON, DOT, OPEN_BRACKET,
    PERCENT,
};
use vstd::prelude::*;
use vstd::slice::slice_subrange;
use vstd::string::StringSliceAdditionalSpecFns;

verus! {

/// A socket address as plain numbers.
#[derive(Clone, Copy, Debug, PartialEq, Eq)]
pub enum SocketAddress {
    V4 { octets: [u8; 4], port: u16 },
    V6 { segments: [u16; 8], scope_id: u32, port: u16 },
}

/// What a socket address is, mathematically: four octets or eight 16-bit
/// segments with a scope, and a port.
pub enum AddressModel {
    V4 { octets: Seq<nat>, port: nat },
    V6 { segments: Seq<nat>, scope_id: nat, port: nat },
}

impl View for SocketAddress {
    type V = AddressModel;

    open spec fn view(&self) -> AddressModel {
        match *self {
            SocketAddress::V4 { octets, port } => AddressModel::V4 {
                octets: octet_values(octets@),
                port: port as nat,
            },
            SocketAddress::V6 { segments, scope_id, port } => AddressModel::V6 {
                segments: segment_values(segments@),
                scope_id: scope_id as nat,
                port: port as nat,
            },
        }
    }
}

impl AddressModel {
    /// The numbers are in range: four octets below 256, or eight segments
    /// below 65536 and a scope of 32 bits, and a port below 65536.
    pub open spec fn well_formed(self) -> bool {
        match self {
            AddressModel::V4 { octets, port } => {
                &&& octets.len() == 4
                &&& forall|i: int| 0 <= i < 4 ==> #[trigger] octets[i] <= 255
                &&& port <= 65535
            },
            AddressModel::V6 { segments, scope_id, port } => {
                &&& segments.len() == 8
                &&& forall|i: int| 0 <= i < 8 ==> #[trigger] segments[i] <= 65535
                &&& scope_id <= 0xffff_ffff
                &&& port <= 65535
            },
        }
    }
}

/// The octets of an address as numbers.
pub open spec fn octet_values(octets: Seq<u8>) -> Seq<nat> {
    Seq::new(octets.len(), |i: int| octets[i] as nat)
}

/// The segments of an address as numbers.
pub open spec fn segment_values(segments: Seq<u16>) -> Seq<nat> {
    Seq::new(segments.len(), |i: int| segments[i] as nat)
}

/// The octets of a dotted quad: four fields between dots, each an octet.
pub open spec fn ipv4_octets(host: Seq<u8>) -> Option<Seq<nat>> {
    let fields = split(host, DOT);
    if fields.len() == 4 && forall|i: int| 0 <= i < 4 ==> octet_number(#[trigger] fields[i]) is Some {
        Some(Seq::new(4, |i: int| octet_number(fields[i]).unwrap()))
    } else {
        None
    }
}

/// Reads a dotted quad.
pub fn parse_ipv4(host: &[u8]) -> (r: Option<[u8; 4]>)
    ensures
        match r {
            Some(octets) => ipv4_octets(host@) == Some(octet_values(octets@)),
            None => ipv4_octets(host@) is None,
        },
{
    let mut octets: [u8; 4] = [0; 4];
    let mut rest = host;
    let ghost mut done: Seq<Seq<u8>> = Seq::empty();
    let mut k: usize = 0;
    while k < 3
        invariant
            k <= 3,
            done.len() == k,
            split(host@, DOT) == done + split(rest@, DOT),
            forall|i: int| 0 <= i < k ==> octet_number(#[trigger] done[i]) == Some(octets@[i] as nat),
        decreases 3 - k,
    {
        let (field, more) = next_field(rest, DOT);
        proof {
            lemma_split_nonempty(rest@, DOT);
            assert(split(host@, DOT)[k as int] == field@);
        }
        match more {
            None => {
                return None;
            },
            Some(after) => {
                match parse_octet(field) {
                    None => {
                        return None;
                    },
                    Some(v) => {
                        octets[k] = v;
                        proof {
                            let next = done.push(field@);
                            assert(split(host@, DOT) =~= next + split(after@, DOT));
                            done = next;
                        }
                        rest = after;
                        k += 1;
                    },
                }
            },
        }
    }
    let (field, more) = next_field(rest, DOT);
    proof {
        lemma_split_nonempty(rest@, DOT);
        assert(split(host@, DOT)[3] == field@);
    }
    match more {
        Some(after) => {
            proof {
                lemma_split_nonempty(after@, DOT);
            }
            None
        },
        None => {
            match parse_octet(field) {
                None => None,
                Some(v) => {
                    octets[3] = v;
                    proof {
                        let fields = split(host@, DOT);
                        assert(fields =~= done.push(field@));
                        assert forall|i: int| 0 <= i < 4 implies octet_number(
                            #[trigger] fields[i],
                        ) == Some(octets@[i] as nat) by {
                            if i < 3 {
                                assert(fields[i] == done[i]);
                            }
                        }
                        assert(ipv4_octets(host@).unwrap() =~= octet_values(octets@));
                    }
                    Some(octets)
                },
            }
        },
    }
}

/// The two 16-bit groups that a dotted quad fills at the end of an IPv6
/// address.
pub open spec fn quad_groups(octets: Seq<nat>) -> Seq<nat> {
    seq![octets[0] * 256 + octets[1], octets[2] * 256 + octets[3]]
}

/// The groups that the last piece of a list stands for: one for a
/// hexadecimal group, two for a dotted quad where one is allowed.
pub open spec fn last_piece(piece: Seq<u8>, allow_quad: bool) -> Option<Seq<nat>> {
    if hex_group(piece) is Some {
        Some(seq![hex_group(piece).unwrap()])
    } else if allow_quad && ipv4_octets(piece) is Some {
        Some(quad_groups(ipv4_octets(piece).unwrap()))
    } else {
        None
    }
}

/// The groups of a colon-separated list. The empty text is the empty list;
/// otherwise every piece but the last is a hexadecimal group, and the last
/// is as `last_piece` says.
pub open spec fn groups_of(text: Seq<u8>, allow_quad: bool) -> Option<Seq<nat>> {
    let fields = split(text, COLON);
    let n = fields.len() - 1;
    if text.len() == 0 {
        Some(Seq::empty())
    } else if (forall|i: int| 0 <= i < n ==> hex_group(#[trigger] fields[i]) is Some) && last_piece(
        fields[n],
        allow_quad,
    ) is Some {
        Some(
            Seq::new(n as nat, |i: int| hex_group(fields[i]).unwrap()) + last_piece(
                fields[n],
                allow_quad,
            ).unwrap(),
        )
    } else {
        None
    }
}

/// Position of the first `::` in `s`, or `s.len()` where there is none.
pub open spec fn first_double_colon(s: Seq<u8>) -> int
    decreases s.len(),
{
    if s.len() < 2 {
        s.len() as int
    } else if s[0] == COLON && s[1] == COLON {
        0
    } else {
        1 + first_double_colon(s.drop_first())
    }
}

/// The eight segments of an IPv6 address. Without `::` the text is a list of
/// exactly eight groups. With `::`, the lists before and after it hold at
/// most seven groups together, and zeros fill the gap; a dotted quad may end
/// the address but not stand before `::`.
pub open spec fn ipv6_segments(text: Seq<u8>) -> Option<Seq<nat>> {
    let i = first_double_colon(text);
    if i < text.len() {
        let head = groups_of(text.subrange(0, i), false);
        let tail = groups_of(text.subrange(i + 2, text.len() as int), true);
        if head is Some && tail is Some && head.unwrap().len() + tail.unwrap().len() <= 7 {
            let gap = (8 - head.unwrap().len() - tail.unwrap().len()) as nat;
            Some(head.unwrap() + Seq::new(gap, |k: int| 0nat) + tail.unwrap())
        } else {
            None
        }
    } else {
        let all = groups_of(text, true);
        if all is Some && all.unwrap().len() == 8 {
            all
        } else {
            None
        }
    }
}

/// What stands between the brackets of an IPv6 host: the address, then
/// optionally `%` and a decimal scope identifier.
pub open spec fn scoped_ipv6(inner: Seq<u8>, port: nat) -> Option<AddressModel> {
    let p = first_index(inner, PERCENT);
    let segments = ipv6_segments(inner.subrange(0, p));
    let scope = if p < inner.len() {
        decimal_number(inner.subrange(p + 1, inner.len() as int), 0xffff_ffff)
    } else {
        Some(0nat)
    };
    if segments is Some && scope is Some {
        Some(AddressModel::V6 { segments: segments.unwrap(), scope_id: scope.unwrap(), port })
    } else {
        None
    }
}

/// The address that a text denotes, if it is the text of one. The last colon
/// parts host and port; a host in square brackets is an IPv6 address, any
/// other a dotted quad.
pub open spec fn socket_address(text: Seq<u8>) -> Option<AddressModel> {
    let c = last_index(text, COLON);
    let host = text.subrange(0, c);
    let port = decimal_number(text.subrange(c + 1, text.len() as int), 65535);
    if c < 0 || port is None {
        None
    } else if host.len() >= 2 && host[0] == OPEN_BRACKET && host.last() == CLOSE_BRACKET {
        scoped_ipv6(host.subrange(1, host.len() - 1), port.unwrap())
    } else if ipv4_octets(host) is Some {
        Some(AddressModel::V4 { octets: ipv4_octets(host).unwrap(), port: port.unwrap() })
    } else {
        None
    }
}

/// The groups of a list are numbers of sixteen bits.
pub proof fn lemma_groups_in_range(text: Seq<u8>, allow_quad: bool)
    requires
        groups_of(text, allow_quad) is Some,
    ensures
        forall|i: int|
            0 <= i < groups_of(text, allow_quad).unwrap().len() ==> #[trigger] groups_of(
                text,
                allow_quad,
            ).unwrap()[i] <= 65535,
{
    let groups = groups_of(text, allow_quad).unwrap();
    if text.len() > 0 {
        let fields = split(text, COLON);
        let n = fields.len() - 1;
        assert forall|i: int| 0 <= i < groups.len() implies #[trigger] groups[i] <= 65535 by {
            if i < n {
                assert(hex_group(fields[i]) is Some);
                lemma_hex_value_bound(fields[i]);
            } else if hex_group(fields[n]) is Some {
                lemma_hex_value_bound(fields[n]);
            } else {
                let quad = split(fields[n], DOT);
                assert(octet_number(quad[0]) is Some);
                assert(octet_number(quad[1]) is Some);
                assert(octet_number(quad[2]) is Some);
                assert(octet_number(quad[3]) is Some);
            }
        }
    }
}

/// Whatever a text denotes is a well-formed address.
pub proof fn lemma_socket_address_well_formed(text: Seq<u8>)
    requires
        socket_address(text) is Some,
    ensures
        socket_address(text).unwrap().well_formed(),
{
    let c = last_index(text, COLON);
    let host = text.subrange(0, c);
    if host.len() >= 2 && host[0] == OPEN_BRACKET && host.last() == CLOSE_BRACKET {
        let inner = host.subrange(1, host.len() - 1);
        let groups = inner.subrange(0, first_index(inner, PERCENT));
        let i = first_double_colon(groups);
        if i < groups.len() {
            lemma_groups_in_range(groups.subrange(0, i), false);
            lemma_groups_in_range(groups.subrange(i + 2, groups.len() as int), true);
        } else {
            lemma_groups_in_range(groups, true);
        }
    } else {
        let quad = split(host, DOT);
        assert(octet_number(quad[0]) is Some);
        assert(octet_number(quad[1]) is Some);
        assert(octet_number(quad[2]) is Some);
        assert(octet_number(quad[3]) is Some);
    }
}

/// The numbers of an executable address are always in range.
pub proof fn lemma_view_well_formed(address: SocketAddress)
    ensures
        address@.well_formed(),
{
}

/// A `::` starts at position `j` of `s`.
pub open spec fn double_colon_at(s: Seq<u8>, j: int) -> bool {
    0 <= j && j + 1 < s.len() && s[j] == COLON && s[j + 1] == COLON
}

/// `first_double_colon` is the one position before which no `::` starts and
/// at which, unless it is the end, one does.
pub proof fn lemma_first_double_colon(s: Seq<u8>)
    ensures
        0 <= first_double_colon(s) <= s.len(),
        first_double_colon(s) < s.len() ==> double_colon_at(s, first_double_colon(s)),
        forall|j: int| 0 <= j < first_double_colon(s) ==> !#[trigger] double_colon_at(s, j),
    decreases s.len(),
{
    if s.len() >= 2 && !(s[0] == COLON && s[1] == COLON) {
        let t = s.drop_first();
        lemma_first_double_colon(t);
        assert forall|j: int| 0 <= j < first_double_colon(s) implies !#[trigger] double_colon_at(
            s,
            j,
        ) by {
            if j > 0 {
                assert(!double_colon_at(t, j - 1));
            }
        }
    }
}

/// Any position with the properties of `lemma_first_double_colon` is
/// `first_double_colon`.
pub proof fn lemma_first_double_colon_unique(s: Seq<u8>, i: int)
    requires
        0 <= i <= s.len(),
        i < s.len() ==> double_colon_at(s, i),
        forall|j: int| 0 <= j < i ==> !#[trigger] double_colon_at(s, j),
    ensures
        first_double_colon(s) == i,
{
    lemma_first_double_colon(s);
    let f = first_double_colon(s);
    if f < i {
        assert(!double_colon_at(s, f));
    } else if i < f {
        assert(!double_colon_at(s, i));
    }
}

/// Finds the first `::` in `s`.
pub fn find_double_colon(s: &[u8]) -> (i: usize)
    ensures
        i == first_double_colon(s@),
{
    let n = s.len();
    if n < 2 {
        proof {
            lemma_first_double_colon_unique(s@, n as int);
        }
        return n;
    }
    let mut i: usize = 0;
    while i < n - 1 && !(s[i] == COLON && s[i + 1] == COLON)
        invariant
            n == s.len(),
            n >= 2,
            i <= n - 1,
            forall|j: int| 0 <= j < i ==> !#[trigger] double_colon_at(s@, j),
        decreases n - i,
    {
        i += 1;
    }
    let found = if i < n - 1 {
        i
    } else {
        n
    };
    proof {
        lemma_first_double_colon_unique(s@, found as int);
    }
    found
}

/// Reads a colon-separated list of groups. `None` where the text is no such
/// list, and also where the list holds more than eight groups, more than
/// any address has.
pub fn parse_groups(text: &[u8], allow_quad: bool) -> (r: Option<Vec<u16>>)
    ensures
        match r {
            Some(groups) => groups.len() <= 8 && groups_of(text@, allow_quad) == Some(
                segment_values(groups@),
            ),
            None => groups_of(text@, allow_quad) is None || groups_of(
                text@,
                allow_quad,
            ).unwrap().len() > 8,
        },
{
    let mut groups: Vec<u16> = Vec::new();
    if text.len() == 0 {
        assert(segment_values(groups@) =~= Seq::empty());
        return Some(groups);
    }
    let mut rest = text;
    let ghost mut done: Seq<Seq<u8>> = Seq::empty();
    loop
        invariant
            text@.len() > 0,
            groups.len() == done.len() <= 8,
            split(text@, COLON) == done + split(rest@, COLON),
            forall|i: int|
                0 <= i < done.len() ==> hex_group(#[trigger] done[i]) == Some(groups@[i] as nat),
        decreases rest@.len(),
    {
        let ghost fields = split(text@, COLON);
        let ghost k = done.len() as int;
        let (field, more) = next_field(rest, COLON);
        proof {
            lemma_split_nonempty(rest@, COLON);
            lemma_first_index(rest@, COLON);
            assert(fields[k] == field@);
        }
        match more {
            Some(after) => {
                proof {
                    lemma_split_nonempty(after@, COLON);
                }
                match parse_hex_group(field) {
                    None => {
                        return None;
                    },
                    Some(g) => {
                        if groups.len() == 8 {
                            return None;
                        }
                        groups.push(g);
                        proof {
                            let next = done.push(field@);
                            assert(fields =~= next + split(after@, COLON));
                            done = next;
                        }
                        rest = after;
                    },
                }
            },
            None => {
                assert(fields =~= done.push(field@));
                match parse_hex_group(field) {
                    Some(g) => {
                        if groups.len() == 8 {
                            return None;
                        }
                        groups.push(g);
                        proof {
                            assert forall|i: int| 0 <= i < k implies hex_group(#[trigger] fields[i])
                                == Some(groups@[i] as nat) by {
                                assert(fields[i] == done[i]);
                            }
                            assert(groups_of(text@, allow_quad).unwrap() =~= segment_values(
                                groups@,
                            ));
                        }
                        return Some(groups);
                    },
                    None => {
                        if !allow_quad {
                            return None;
                        }
                        match parse_ipv4(field) {
                            None => {
                                return None;
                            },
                            Some(octets) => {
                                if groups.len() > 6 {
                                    return None;
                                }
                                groups.push(octets[0] as u16 * 256 + octets[1] as u16);
                                groups.push(octets[2] as u16 * 256 + octets[3] as u16);
                                proof {
                                    assert forall|i: int| 0 <= i < k implies hex_group(
                                        #[trigger] fields[i],
                                    ) == Some(groups@[i] as nat) by {
                                        assert(fields[i] == done[i]);
                                    }
                                    assert(groups_of(text@, allow_quad).unwrap() =~= segment_values(
                                        groups@,
                                    ));
                                }
                                return Some(groups);
                            },
                        }
                    },
                }
            },
        }
    }
}

/// Reads an IPv6 address.
pub fn parse_ipv6(text: &[u8]) -> (r: Option<[u16; 8]>)
    ensures
        match r {
            Some(segments) => ipv6_segments(text@) == Some(segment_values(segments@)),
            None => ipv6_segments(text@) is None,
        },
{
    let i = find_double_colon(text);
    proof {
        lemma_first_double_colon(text@);
    }
    let mut segments: [u16; 8] = [0; 8];
    if i < text.len() {
        let head = match parse_groups(slice_subrange(text, 0, i), false) {
            Some(head) => head,
            None => {
                return None;
            },
        };
        let tail = match parse_groups(slice_subrange(text, i + 2, text.len()), true) {
            Some(tail) => tail,
            None => {
                return None;
            },
        };
        if head.len() + tail.len() > 7 {
            return None;
        }
        let mut k: usize = 0;
        while k < head.len()
            invariant
                k <= head.len(),
                head.len() + tail.len() <= 7,
                forall|j: int| 0 <= j < k ==> segments@[j] == head@[j],
                forall|j: int| k <= j < 8 ==> segments@[j] == 0,
            decreases head.len() - k,
        {
            segments[k] = head[k];
            k += 1;
        }
        let start = 8 - tail.len();
        let mut m: usize = 0;
        while m < tail.len()
            invariant
                m <= tail.len(),
                start == 8 - tail.len(),
                head.len() + tail.len() <= 7,
                forall|j: int| 0 <= j < head.len() ==> segments@[j] == head@[j],
                forall|j: int| head.len() <= j < start ==> segments@[j] == 0,
                forall|j: int| 0 <= j < m ==> segments@[start + j] == tail@[j],
            decreases tail.len() - m,
        {
            segments[start + m] = tail[m];
            m += 1;
        }
        proof {
            let gap = (8 - head.len() - tail.len()) as nat;
            assert(segment_values(segments@) =~= segment_values(head@) + Seq::new(
                gap,
                |k: int| 0nat,
            ) + segment_values(tail@));
        }
        Some(segments)
    } else {
        match parse_groups(text, true) {
            None => None,
            Some(all) => {
                if all.len() != 8 {
                    return None;
                }
                let mut k: usize = 0;
                while k < 8
                    invariant
                        k <= 8,
                        all.len() == 8,
                        forall|j: int| 0 <= j < k ==> segments@[j] == all@[j],
                    decreases 8 - k,
                {
                    segments[k] = all[k];
                    k += 1;
                }
                assert(segment_values(segments@) =~= segment_values(all@));
                Some(segments)
            },
        }
    }
}

impl SocketAddress {
    /// Reads a socket address from bytes of text.
    pub fn from_bytes(text: &[u8]) -> (r: Option<SocketAddress>)
        ensures
            match r {
                Some(address) => socket_address(text@) == Some(address@),
                None => socket_address(text@) is None,
            },
    {
        let c = match find_last(text, COLON) {
            Some(c) => c,
            None => {
                return None;
            },
        };
        proof {
            lemma_last_index(text@, COLON);
        }
        let n = text.len();
        let host = slice_subrange(text, 0, c);
        let port = match parse_decimal(slice_subrange(text, c + 1, n), 65535) {
            Some(port) => port as u16,
            None => {
                return None;
            },
        };
        if host.len() >= 2 && host[0] == OPEN_BRACKET && host[host.len() - 1] == CLOSE_BRACKET {
            let inner = slice_subrange(host, 1, host.len() - 1);
            let p = find_first(inner, PERCENT);
            proof {
                lemma_first_index(inner@, PERCENT);
            }
            let segments = match parse_ipv6(slice_subrange(inner, 0, p)) {
                Some(segments) => segments,
                None => {
                    return None;
                },
            };
            let scope_id = if p < inner.len() {
                match parse_decimal(slice_subrange(inner, p + 1, inner.len()), 0xffff_ffff) {
                    Some(scope_id) => scope_id,
                    None => {
                        return None;
                    },
                }
            } else {
                0
            };
            Some(SocketAddress::V6 { segments, scope_id, port })
        } else {
            match parse_ipv4(host) {
                Some(octets) => Some(SocketAddress::V4 { octets, port }),
                None => None,
            }
        }
    }

    /// Reads a socket address from its text, `host:port`.
    pub fn parse(text: &str) -> (r: Option<SocketAddress>)
        ensures
            match r {
                Some(address) => socket_address(text.spec_bytes()) == Some(address@),
                None => socket_address(text.spec_bytes()) is None,
            },
    {
        SocketAddress::from_bytes(text.as_bytes())
    }
}

} // verus!
