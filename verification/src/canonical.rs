//! The canonical text of a socket address, and the proof that reading it
//! gives the address back.
//!
//! An IPv4 address is written `a.b.c.d:port`; an IPv6 address with all eight
//! groups, `[g:g:g:g:g:g:g:g]:port`, with `%scope` after the last group where
//! the scope is not zero. Numbers carry no leading zeros, and hexadecimal
//! digits are lower case.

use crate::address::{
    double_colon_at, first_double_colon, groups_of, ipv4_octets, ipv6_segments,
    lemma_first_double_colon, lemma_first_double_colon_unique, lemma_view_well_formed,
    scoped_ipv6, socket_address, AddressModel, SocketAddress,
};
use crate::text::{
    all_digits, all_hex_digits, decimal_number, decimal_value, hex_group, hex_value,
    is_digit, is_hex_digit, last_index, lemma_first_index_unique, lemma_last_index_unique,
    octet_number, split, CLOSE_BRACKET, COLON, DOT, OPEN_BRACKET, PERCENT, ZERO,
};
use crate::address::{octet_values, segment_values};
use vstd::prelude::*;
use vstd::utf8::{encode_utf8, is_ascii_chars, is_ascii_chars_concat, is_ascii_chars_encode_utf8};

verus! {

/// The byte that writes the digit `d`, below sixteen: `0`..`9`, then
/// `a`..`f`.
pub open spec fn digit_byte(d: nat) -> u8 {
    if d < 10 {
        (0x30 + d) as u8
    } else {
        (0x61 + d - 10) as u8
    }
}

/// `n` in base ten without leading zeros.
pub open spec fn decimal_text(n: nat) -> Seq<u8>
    decreases n,
{
    if n < 10 {
        seq![digit_byte(n)]
    } else {
        decimal_text(n / 10).push(digit_byte(n % 10))
    }
}

/// `n` in base sixteen without leading zeros, in lower case.
pub open spec fn hex_text(n: nat) -> Seq<u8>
    decreases n,
{
    if n < 16 {
        seq![digit_byte(n)]
    } else {
        hex_text(n / 16).push(digit_byte(n % 16))
    }
}

/// The fields, written one after the other with `sep` between them.
pub open spec fn join(fields: Seq<Seq<u8>>, sep: u8) -> Seq<u8>
    decreases fields.len(),
{
    if fields.len() == 0 {
        Seq::empty()
    } else if fields.len() == 1 {
        fields[0]
    } else {
        fields[0] + seq![sep] + join(fields.drop_first(), sep)
    }
}

/// `b` does not occur in `s`.
pub open spec fn without(s: Seq<u8>, b: u8) -> bool {
    forall|j: int| 0 <= j < s.len() ==> #[trigger] s[j] != b
}

/// `b` occurs in none of the fields.
pub open spec fn all_without(fields: Seq<Seq<u8>>, b: u8) -> bool {
    forall|i: int| 0 <= i < fields.len() ==> without(#[trigger] fields[i], b)
}

/// A dotted quad.
pub open spec fn ipv4_text(octets: Seq<nat>) -> Seq<u8> {
    join(Seq::new(4, |i: int| decimal_text(octets[i])), DOT)
}

/// Eight groups between colons.
pub open spec fn ipv6_text(segments: Seq<nat>) -> Seq<u8> {
    join(Seq::new(8, |i: int| hex_text(segments[i])), COLON)
}

/// `%` and the scope, or nothing where the scope is zero.
pub open spec fn scope_text(scope_id: nat) -> Seq<u8> {
    if scope_id == 0 {
        Seq::empty()
    } else {
        seq![PERCENT] + decimal_text(scope_id)
    }
}

/// The canonical text of an address.
pub open spec fn address_text(address: AddressModel) -> Seq<u8> {
    match address {
        AddressModel::V4 { octets, port } => ipv4_text(octets) + seq![COLON] + decimal_text(port),
        AddressModel::V6 { segments, scope_id, port } => seq![OPEN_BRACKET] + ipv6_text(segments)
            + scope_text(scope_id) + seq![CLOSE_BRACKET, COLON] + decimal_text(port),
    }
}

/// Decimal text is digits only, spells its number, and is as short as can
/// be.
pub proof fn lemma_decimal_text(n: nat)
    ensures
        decimal_text(n).len() >= 1,
        all_digits(decimal_text(n)),
        decimal_value(decimal_text(n)) == n,
        n > 0 ==> decimal_text(n)[0] != ZERO,
        n < 10 ==> decimal_text(n).len() == 1,
        n < 100 ==> decimal_text(n).len() <= 2,
        n < 1000 ==> decimal_text(n).len() <= 3,
    decreases n,
{
    let t = decimal_text(n);
    if n < 10 {
        assert(t.drop_last() =~= Seq::<u8>::empty());
        reveal_with_fuel(decimal_value, 2);
    } else {
        let p = decimal_text(n / 10);
        lemma_decimal_text(n / 10);
        assert(t.drop_last() =~= p);
        assert(t[0] == p[0]);
        assert forall|i: int| 0 <= i < t.len() implies is_digit(#[trigger] t[i]) by {
            if i < p.len() {
                assert(t[i] == p[i]);
            }
        }
    }
}

/// Hexadecimal text is hexadecimal digits only, spells its number, and a
/// number of sixteen bits takes at most four of them.
pub proof fn lemma_hex_text(n: nat)
    ensures
        hex_text(n).len() >= 1,
        all_hex_digits(hex_text(n)),
        hex_value(hex_text(n)) == n,
        n < 16 ==> hex_text(n).len() == 1,
        n < 256 ==> hex_text(n).len() <= 2,
        n < 4096 ==> hex_text(n).len() <= 3,
        n < 65536 ==> hex_text(n).len() <= 4,
    decreases n,
{
    let t = hex_text(n);
    if n < 16 {
        assert(t.drop_last() =~= Seq::<u8>::empty());
        reveal_with_fuel(hex_value, 2);
    } else {
        let p = hex_text(n / 16);
        lemma_hex_text(n / 16);
        assert(t.drop_last() =~= p);
        assert forall|i: int| 0 <= i < t.len() implies is_hex_digit(#[trigger] t[i]) by {
            if i < p.len() {
                assert(t[i] == p[i]);
            }
        }
    }
}

/// Splitting what was joined gives the fields back, provided that the
/// separator occurs in none of them.
pub proof fn lemma_split_join(fields: Seq<Seq<u8>>, sep: u8)
    requires
        fields.len() >= 1,
        all_without(fields, sep),
    ensures
        split(join(fields, sep), sep) == fields,
    decreases fields.len(),
{
    let text = join(fields, sep);
    let first = fields[0];
    assert(without(first, sep));
    if fields.len() == 1 {
        lemma_first_index_unique(text, sep, text.len() as int);
        assert(split(text, sep) =~= fields);
    } else {
        let others = fields.drop_first();
        assert forall|i: int| 0 <= i < others.len() implies without(#[trigger] others[i], sep) by {
            assert(others[i] == fields[i + 1]);
        }
        lemma_split_join(others, sep);
        let i = first.len() as int;
        assert forall|j: int| 0 <= j < i implies text[j] != sep by {
            assert(text[j] == first[j]);
        }
        lemma_first_index_unique(text, sep, i);
        assert(text.subrange(0, i) =~= first);
        assert(text.subrange(i + 1, text.len() as int) =~= join(others, sep));
        assert(split(text, sep) =~= fields);
    }
}

/// A byte that is neither the separator nor in any field is not in what
/// they join to.
pub proof fn lemma_join_without(fields: Seq<Seq<u8>>, sep: u8, b: u8)
    requires
        b != sep,
        all_without(fields, b),
    ensures
        without(join(fields, sep), b),
    decreases fields.len(),
{
    let text = join(fields, sep);
    if fields.len() == 1 {
        assert(without(fields[0], b));
    } else if fields.len() > 1 {
        let first = fields[0];
        let others = fields.drop_first();
        assert(without(first, b));
        assert forall|i: int| 0 <= i < others.len() implies without(#[trigger] others[i], b) by {
            assert(others[i] == fields[i + 1]);
        }
        lemma_join_without(others, sep, b);
        let rest = join(others, sep);
        assert forall|j: int| 0 <= j < text.len() implies #[trigger] text[j] != b by {
            if j < first.len() {
                assert(text[j] == first[j]);
            } else if j > first.len() {
                assert(text[j] == rest[j - first.len() - 1]);
            }
        }
    }
}

/// Fields that are not empty and hold no colon join, with colons between
/// them, to a text that starts with the first byte of the first field and
/// holds no `::`.
pub proof fn lemma_join_no_double_colon(fields: Seq<Seq<u8>>)
    requires
        fields.len() >= 1,
        all_without(fields, COLON),
        forall|i: int| 0 <= i < fields.len() ==> (#[trigger] fields[i]).len() >= 1,
    ensures
        join(fields, COLON).len() >= 1,
        join(fields, COLON)[0] == fields[0][0],
        first_double_colon(join(fields, COLON)) == join(fields, COLON).len(),
    decreases fields.len(),
{
    let text = join(fields, COLON);
    let first = fields[0];
    assert(without(first, COLON));
    assert(first.len() >= 1);
    if fields.len() == 1 {
        assert forall|j: int| 0 <= j < text.len() implies !#[trigger] double_colon_at(text, j) by {
            assert(text[j] != COLON);
        }
    } else {
        let others = fields.drop_first();
        assert forall|i: int| 0 <= i < others.len() implies without(#[trigger] others[i], COLON)
            && others[i].len() >= 1 by {
            assert(others[i] == fields[i + 1]);
        }
        lemma_join_no_double_colon(others);
        let rest = join(others, COLON);
        assert(without(others[0], COLON));
        assert(rest[0] != COLON);
        assert forall|j: int| 0 <= j < text.len() implies !#[trigger] double_colon_at(text, j) by {
            if j < first.len() {
                assert(text[j] == first[j]);
            } else if j == first.len() {
                assert(text[j + 1] == rest[0]);
            } else {
                let k = j - first.len() - 1;
                assert(text[j] == rest[k]);
                if k + 1 < rest.len() {
                    assert(text[j + 1] == rest[k + 1]);
                    lemma_first_double_colon(rest);
                    assert(!double_colon_at(rest, k));
                }
            }
        }
    }
    lemma_first_double_colon_unique(text, text.len() as int);
}

/// Digits are none of the bytes that structure an address.
pub proof fn lemma_digits_are_plain(s: Seq<u8>)
    requires
        all_hex_digits(s) || all_digits(s),
    ensures
        without(s, DOT),
        without(s, COLON),
        without(s, PERCENT),
        without(s, OPEN_BRACKET),
        without(s, CLOSE_BRACKET),
{
    assert forall|j: int| 0 <= j < s.len() implies is_hex_digit(#[trigger] s[j]) by {
        if all_digits(s) {
            assert(is_digit(s[j]));
        }
    }
}

/// Reading the text of a dotted quad gives its octets.
pub proof fn lemma_ipv4_round_trip(octets: Seq<nat>)
    requires
        octets.len() == 4,
        forall|i: int| 0 <= i < 4 ==> #[trigger] octets[i] <= 255,
    ensures
        ipv4_octets(ipv4_text(octets)) == Some(octets),
        ipv4_text(octets).len() >= 1,
        is_digit(ipv4_text(octets)[0]),
        without(ipv4_text(octets), COLON),
{
    let fields = Seq::new(4, |i: int| decimal_text(octets[i]));
    assert forall|i: int| 0 <= i < 4 implies {
        &&& without(#[trigger] fields[i], DOT)
        &&& without(fields[i], COLON)
        &&& octet_number(fields[i]) == Some(octets[i])
        &&& all_digits(fields[i])
    } by {
        lemma_decimal_text(octets[i]);
        lemma_digits_are_plain(fields[i]);
        assert(octets[i] <= 255);
    }
    lemma_split_join(fields, DOT);
    lemma_join_without(fields, DOT, COLON);
    assert(ipv4_octets(ipv4_text(octets)).unwrap() =~= octets);
    let text = ipv4_text(octets);
    reveal_with_fuel(join, 2);
    assert(text[0] == fields[0][0]);
}

/// Reading the text of eight groups gives its segments.
pub proof fn lemma_ipv6_round_trip(segments: Seq<nat>)
    requires
        segments.len() == 8,
        forall|i: int| 0 <= i < 8 ==> #[trigger] segments[i] <= 65535,
    ensures
        ipv6_segments(ipv6_text(segments)) == Some(segments),
        without(ipv6_text(segments), PERCENT),
{
    let fields = Seq::new(8, |i: int| hex_text(segments[i]));
    let text = ipv6_text(segments);
    assert forall|i: int| 0 <= i < 8 implies {
        &&& without(#[trigger] fields[i], COLON)
        &&& without(fields[i], PERCENT)
        &&& fields[i].len() >= 1
        &&& hex_group(fields[i]) == Some(segments[i])
    } by {
        lemma_hex_text(segments[i]);
        lemma_digits_are_plain(fields[i]);
        assert(segments[i] <= 65535);
    }
    lemma_split_join(fields, COLON);
    lemma_join_without(fields, COLON, PERCENT);
    lemma_join_no_double_colon(fields);
    assert(groups_of(text, true).unwrap() =~= segments);
}

/// A text made of a host, a colon and the decimal text of a port parts at
/// that colon.
proof fn lemma_host_and_port(host: Seq<u8>, port: nat)
    requires
        port <= 65535,
    ensures
        last_index(host + seq![COLON] + decimal_text(port), COLON) == host.len(),
        (host + seq![COLON] + decimal_text(port)).subrange(0, host.len() as int) == host,
        decimal_number(
            (host + seq![COLON] + decimal_text(port)).subrange(
                host.len() as int + 1,
                (host + seq![COLON] + decimal_text(port)).len() as int,
            ),
            65535,
        ) == Some(port),
{
    let digits = decimal_text(port);
    let text = host + seq![COLON] + digits;
    let c = host.len() as int;
    lemma_decimal_text(port);
    lemma_digits_are_plain(digits);
    assert forall|j: int| c < j < text.len() implies text[j] != COLON by {
        assert(text[j] == digits[j - c - 1]);
    }
    lemma_last_index_unique(text, COLON, c);
    assert(text.subrange(0, c) =~= host);
    assert(text.subrange(c + 1, text.len() as int) =~= digits);
}

/// What stands between the brackets of a canonical IPv6 host denotes the
/// segments and the scope that it was written from.
proof fn lemma_scoped_round_trip(segments: Seq<nat>, scope_id: nat, port: nat)
    requires
        (AddressModel::V6 { segments, scope_id, port }).well_formed(),
    ensures
        scoped_ipv6(ipv6_text(segments) + scope_text(scope_id), port) == Some(
            AddressModel::V6 { segments, scope_id, port },
        ),
{
    let groups = ipv6_text(segments);
    let inner = groups + scope_text(scope_id);
    lemma_ipv6_round_trip(segments);
    let p = groups.len() as int;
    assert forall|j: int| 0 <= j < p implies inner[j] != PERCENT by {
        assert(inner[j] == groups[j]);
    }
    lemma_first_index_unique(inner, PERCENT, p);
    assert(inner.subrange(0, p) =~= groups);
    if scope_id != 0 {
        lemma_decimal_text(scope_id);
        assert(inner.subrange(p + 1, inner.len() as int) =~= decimal_text(scope_id));
    }
}

/// Every well-formed address has a text, and that text denotes the address
/// and no other: reading what was written gives back the same host and
/// port.
pub proof fn lemma_text_round_trip(address: AddressModel)
    requires
        address.well_formed(),
    ensures
        socket_address(address_text(address)) == Some(address),
{
    let text = address_text(address);
    match address {
        AddressModel::V4 { octets, port } => {
            let host = ipv4_text(octets);
            lemma_ipv4_round_trip(octets);
            lemma_host_and_port(host, port);
            assert(host[0] != OPEN_BRACKET);
        },
        AddressModel::V6 { segments, scope_id, port } => {
            let inner = ipv6_text(segments) + scope_text(scope_id);
            let host = seq![OPEN_BRACKET] + inner + seq![CLOSE_BRACKET];
            assert(text =~= host + seq![COLON] + decimal_text(port));
            lemma_host_and_port(host, port);
            assert(host.subrange(1, host.len() - 1) =~= inner);
            lemma_scoped_round_trip(segments, scope_id, port);
        },
    }
}

/// Bytes of text as characters, one for one.
pub open spec fn text_chars(bytes: Seq<u8>) -> Seq<char> {
    Seq::new(bytes.len(), |i: int| bytes[i] as char)
}

/// The hexadecimal texts of some segments, in order.
pub open spec fn hex_fields(segments: Seq<nat>) -> Seq<Seq<u8>> {
    Seq::new(segments.len(), |i: int| hex_text(segments[i]))
}

/// The text that writes one digit below sixteen.
fn digit_str(d: u8) -> (r: &'static str)
    requires
        d < 16,
    ensures
        r@ == text_chars(seq![digit_byte(d as nat)]),
        is_ascii_chars(r@),
{
    proof {
        reveal_strlit("0");
        reveal_strlit("1");
        reveal_strlit("2");
        reveal_strlit("3");
        reveal_strlit("4");
        reveal_strlit("5");
        reveal_strlit("6");
        reveal_strlit("7");
        reveal_strlit("8");
        reveal_strlit("9");
        reveal_strlit("a");
        reveal_strlit("b");
        reveal_strlit("c");
        reveal_strlit("d");
        reveal_strlit("e");
        reveal_strlit("f");
    }
    let r = match d {
        0 => "0",
        1 => "1",
        2 => "2",
        3 => "3",
        4 => "4",
        5 => "5",
        6 => "6",
        7 => "7",
        8 => "8",
        9 => "9",
        10 => "a",
        11 => "b",
        12 => "c",
        13 => "d",
        14 => "e",
        _ => "f",
    };
    assert(r@ =~= text_chars(seq![digit_byte(d as nat)]));
    r
}

/// Appends `n` in base ten.
fn push_decimal(out: &mut String, n: u32)
    requires
        is_ascii_chars(old(out)@),
    ensures
        final(out)@ == old(out)@ + text_chars(decimal_text(n as nat)),
        is_ascii_chars(final(out)@),
    decreases n,
{
    if n >= 10 {
        push_decimal(out, n / 10);
    }
    let ghost before = out@;
    let digit = digit_str((n % 10) as u8);
    out.append(digit);
    proof {
        is_ascii_chars_concat(out@, before, digit@);
        assert(out@ =~= old(out)@ + text_chars(decimal_text(n as nat)));
    }
}

/// Appends `n` in base sixteen.
fn push_hex(out: &mut String, n: u16)
    requires
        is_ascii_chars(old(out)@),
    ensures
        final(out)@ == old(out)@ + text_chars(hex_text(n as nat)),
        is_ascii_chars(final(out)@),
    decreases n,
{
    if n >= 16 {
        push_hex(out, n / 16);
    }
    let ghost before = out@;
    let digit = digit_str((n % 16) as u8);
    out.append(digit);
    proof {
        is_ascii_chars_concat(out@, before, digit@);
        assert(out@ =~= old(out)@ + text_chars(hex_text(n as nat)));
    }
}

/// Appends one byte of punctuation, given as its text.
fn push_mark(out: &mut String, mark: &str, Ghost(byte): Ghost<u8>)
    requires
        is_ascii_chars(old(out)@),
        mark@.len() == 1,
        mark@[0] == byte as char,
        byte < 128,
    ensures
        final(out)@ == old(out)@ + text_chars(seq![byte]),
        is_ascii_chars(final(out)@),
{
    let ghost before = out@;
    out.append(mark);
    proof {
        assert(is_ascii_chars(mark@));
        is_ascii_chars_concat(out@, before, mark@);
        assert(out@ =~= old(out)@ + text_chars(seq![byte]));
    }
}

/// Appends the groups from position `k` on, with colons between them.
fn push_groups(out: &mut String, segments: &[u16; 8], k: usize)
    requires
        is_ascii_chars(old(out)@),
        k < 8,
    ensures
        final(out)@ == old(out)@ + text_chars(
            join(hex_fields(segment_values(segments@).subrange(k as int, 8)), COLON),
        ),
        is_ascii_chars(final(out)@),
    decreases 8 - k,
{
    let ghost fields = hex_fields(segment_values(segments@).subrange(k as int, 8));
    push_hex(out, segments[k]);
    if k < 7 {
        proof {
            reveal_strlit(":");
        }
        push_mark(out, ":", Ghost(COLON));
        push_groups(out, segments, k + 1);
        proof {
            assert(fields.drop_first() =~= hex_fields(
                segment_values(segments@).subrange(k + 1, 8),
            ));
            assert(out@ =~= old(out)@ + text_chars(join(fields, COLON)));
        }
    }
}

impl SocketAddress {
    /// Writes the address in its canonical text. Reading that text gives
    /// the address back.
    pub fn to_text(&self) -> (r: String)
        ensures
            r@ == text_chars(address_text(self@)),
            encode_utf8(r@) == address_text(self@),
            socket_address(encode_utf8(r@)) == Some(self@),
    {
        let mut out = String::new();
        proof {
            reveal_strlit(".");
            reveal_strlit(":");
            reveal_strlit("[");
            reveal_strlit("]");
            reveal_strlit("%");
        }
        match self {
            SocketAddress::V4 { octets, port } => {
                push_decimal(&mut out, octets[0] as u32);
                push_mark(&mut out, ".", Ghost(DOT));
                push_decimal(&mut out, octets[1] as u32);
                push_mark(&mut out, ".", Ghost(DOT));
                push_decimal(&mut out, octets[2] as u32);
                push_mark(&mut out, ".", Ghost(DOT));
                push_decimal(&mut out, octets[3] as u32);
                push_mark(&mut out, ":", Ghost(COLON));
                push_decimal(&mut out, *port as u32);
                proof {
                    reveal_with_fuel(join, 4);
                    let values = octet_values(octets@);
                    let fields = Seq::new(4, |i: int| decimal_text(values[i]));
                    assert(fields.drop_first().drop_first().drop_first()[0] == fields[3]);
                    assert(fields.drop_first().drop_first()[0] == fields[2]);
                    assert(fields.drop_first()[0] == fields[1]);
                    assert(out@ =~= text_chars(address_text(self@)));
                }
            },
            SocketAddress::V6 { segments, scope_id, port } => {
                push_mark(&mut out, "[", Ghost(OPEN_BRACKET));
                push_groups(&mut out, segments, 0);
                if *scope_id != 0 {
                    push_mark(&mut out, "%", Ghost(PERCENT));
                    push_decimal(&mut out, *scope_id);
                }
                push_mark(&mut out, "]", Ghost(CLOSE_BRACKET));
                push_mark(&mut out, ":", Ghost(COLON));
                push_decimal(&mut out, *port as u32);
                proof {
                    let values = segment_values(segments@);
                    assert(values.subrange(0, 8) =~= values);
                    assert(hex_fields(values) =~= Seq::new(8, |i: int| hex_text(values[i])));
                    assert(out@ =~= text_chars(address_text(self@)));
                }
            },
        }
        proof {
            is_ascii_chars_encode_utf8(out@);
            assert(encode_utf8(out@) =~= address_text(self@));
            lemma_view_well_formed(*self);
            lemma_text_round_trip(self@);
        }
        out
    }
}

} // verus!
