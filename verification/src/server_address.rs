//! The server address type and the wire-format record it is decoded from.

use vstd::prelude::*;
use vstd::string::*;
use vstd::utf8::{encode_utf8, encode_utf8_decode_utf8};

verus! {

/// Number of bytes in one wire-format address record.
pub const RAW_ADDRESS_SIZE: usize = 6;

/// Mathematical value of one server address: the characters of its
/// dotted-decimal IP string, and its port.
#[verifier::ext_equal]
pub ghost struct AddrView {
    pub ip: Seq<char>,
    pub port: u16,
}

/// The decimal digit character for a value below ten.
pub open spec fn digit_char(d: nat) -> char {
    if d == 0 {
        '0'
    } else if d == 1 {
        '1'
    } else if d == 2 {
        '2'
    } else if d == 3 {
        '3'
    } else if d == 4 {
        '4'
    } else if d == 5 {
        '5'
    } else if d == 6 {
        '6'
    } else if d == 7 {
        '7'
    } else if d == 8 {
        '8'
    } else {
        '9'
    }
}

/// The decimal representation of `n`, most significant digit first,
/// without leading zeros (a single `'0'` for zero).
pub open spec fn dec_chars(n: nat) -> Seq<char>
    decreases n,
{
    if n < 10 {
        seq![digit_char(n)]
    } else {
        dec_chars(n / 10).push(digit_char(n % 10))
    }
}

/// The dotted-decimal string for four IP octets.
pub open spec fn ip_chars(o0: u8, o1: u8, o2: u8, o3: u8) -> Seq<char> {
    dec_chars(o0 as nat) + seq!['.'] + dec_chars(o1 as nat) + seq!['.'] + dec_chars(o2 as nat)
        + seq!['.'] + dec_chars(o3 as nat)
}

/// The port held in a big-endian pair of bytes.
pub open spec fn port_value(hi: u8, lo: u8) -> u16 {
    ((hi as int) * 256 + (lo as int)) as u16
}

/// The address held in one six-byte wire record.
pub open spec fn record_view(r: Seq<u8>) -> AddrView {
    AddrView { ip: ip_chars(r[0], r[1], r[2], r[3]), port: port_value(r[4], r[5]) }
}

/// Decoding inverts encoding: a six-byte record built from four octets
/// and the big-endian halves of a port reads back as exactly those
/// octets, dotted, and that port.
pub proof fn lemma_record_round_trip(o0: u8, o1: u8, o2: u8, o3: u8, p: u16)
    ensures
        record_view(seq![o0, o1, o2, o3, (p / 256) as u8, (p % 256) as u8]) == (AddrView {
            ip: ip_chars(o0, o1, o2, o3),
            port: p,
        }),
{
    let r = seq![o0, o1, o2, o3, (p / 256) as u8, (p % 256) as u8];
    assert(port_value(r[4], r[5]) == p);
    assert(record_view(r) =~= (AddrView { ip: ip_chars(o0, o1, o2, o3), port: p }));
}

/// Wire-format record: four raw IP octets and a port already brought to
/// host byte order.
#[derive(Clone, Copy, Debug)]
pub struct RawServerAddress {
    pub ip: [u8; 4],
    pub port: u16,
}

impl RawServerAddress {
    /// Reads one record from a buffer of exactly [`RAW_ADDRESS_SIZE`]
    /// bytes; any other length yields `None`.
    pub fn read_from(bytes: &[u8]) -> (r: Option<RawServerAddress>)
        ensures
            r is Some <==> bytes@.len() == RAW_ADDRESS_SIZE,
            r matches Some(raw) ==> raw.ip@ =~= bytes@.subrange(0, 4) && raw.port == port_value(
                bytes@[4],
                bytes@[5],
            ),
    {
        if bytes.len() == RAW_ADDRESS_SIZE {
            let raw = RawServerAddress {
                ip: [bytes[0], bytes[1], bytes[2], bytes[3]],
                port: (bytes[4] as u16) * 256 + (bytes[5] as u16),
            };
            proof {
                assert(raw.ip@ =~= bytes@.subrange(0, 4));
            }
            Some(raw)
        } else {
            None
        }
    }
}

/// The one-character string for a decimal digit.
fn digit_str(d: u8) -> (s: &'static str)
    requires
        d < 10,
    ensures
        s@ == seq![digit_char(d as nat)],
{
    proof {
        reveal_strlit("0");
        reveal_strlit("1");
        reveal_strlit("2");
        reveal_strlit("3");
        reveal_strlit("4");
        reveal_strlit("5");
        reveal_strlit("6");
        reveal_strlit("7");
        reveal_strlit("8");
        reveal_strlit("9");
    }
    let s: &'static str = if d == 0 {
        "0"
    } else if d == 1 {
        "1"
    } else if d == 2 {
        "2"
    } else if d == 3 {
        "3"
    } else if d == 4 {
        "4"
    } else if d == 5 {
        "5"
    } else if d == 6 {
        "6"
    } else if d == 7 {
        "7"
    } else if d == 8 {
        "8"
    } else {
        "9"
    };
    proof {
        assert(s@ =~= seq![digit_char(d as nat)]);
    }
    s
}

/// Appends the decimal representation of `n` to `out`.
fn push_decimal(out: &mut String, n: u16)
    ensures
        final(out)@ == old(out)@ + dec_chars(n as nat),
    decreases n,
{
    if n < 10 {
        out.append(digit_str(n as u8));
    } else {
        push_decimal(out, n / 10);
        out.append(digit_str((n % 10) as u8));
        proof {
            assert(out@ =~= old(out)@ + dec_chars(n as nat));
        }
    }
}

/// One discovered game server endpoint: a dotted-decimal IPv4 string and
/// a port.
#[derive(Debug)]
pub struct ServerAddress {
    pub ip: String,
    pub port: u16,
}

impl View for ServerAddress {
    type V = AddrView;

    open spec fn view(&self) -> AddrView {
        AddrView { ip: self.ip@, port: self.port }
    }
}

impl ServerAddress {
    /// The address a raw wire record stands for: the octets joined with
    /// dots, the port as it is.
    pub fn from(raw: RawServerAddress) -> (r: ServerAddress)
        ensures
            r@ == (AddrView {
                ip: ip_chars(raw.ip@[0], raw.ip@[1], raw.ip@[2], raw.ip@[3]),
                port: raw.port,
            }),
    {
        proof {
            reveal_strlit(".");
        }
        let mut ip = String::new();
        push_decimal(&mut ip, raw.ip[0] as u16);
        ip.append(".");
        push_decimal(&mut ip, raw.ip[1] as u16);
        ip.append(".");
        push_decimal(&mut ip, raw.ip[2] as u16);
        ip.append(".");
        push_decimal(&mut ip, raw.ip[3] as u16);
        proof {
            assert(ip@ =~= ip_chars(raw.ip@[0], raw.ip@[1], raw.ip@[2], raw.ip@[3]));
        }
        let r = ServerAddress { ip, port: raw.port };
        proof {
            assert(r@ =~= (AddrView {
                ip: ip_chars(raw.ip@[0], raw.ip@[1], raw.ip@[2], raw.ip@[3]),
                port: raw.port,
            }));
        }
        r
    }

    /// The `"{ip}:{port}"` form of the address.
    pub fn display(&self) -> (s: String)
        ensures
            s@ == self@.ip + seq![':'] + dec_chars(self@.port as nat),
    {
        proof {
            reveal_strlit(":");
        }
        let mut s = self.ip.clone();
        s.append(":");
        push_decimal(&mut s, self.port);
        proof {
            assert(s@ =~= self@.ip + seq![':'] + dec_chars(self@.port as nat));
        }
        s
    }
}

/// Strict lexicographic order on byte sequences: the one `str` sorts by.
pub open spec fn bytes_lt(a: Seq<u8>, b: Seq<u8>) -> bool
    decreases a.len(),
{
    if b.len() == 0 {
        false
    } else if a.len() == 0 {
        true
    } else if a[0] != b[0] {
        a[0] < b[0]
    } else {
        bytes_lt(a.drop_first(), b.drop_first())
    }
}

/// `a` comes strictly before `b`: IP strings compared as their UTF-8
/// bytes, ties broken by the port.
pub open spec fn addr_lt(a: AddrView, b: AddrView) -> bool {
    bytes_lt(encode_utf8(a.ip), encode_utf8(b.ip)) || (encode_utf8(a.ip) == encode_utf8(b.ip)
        && a.port < b.port)
}

/// `a` comes at or before `b`.
pub open spec fn addr_le(a: AddrView, b: AddrView) -> bool {
    addr_lt(a, b) || a == b
}

proof fn lemma_bytes_lt_asym(a: Seq<u8>, b: Seq<u8>)
    requires
        bytes_lt(a, b),
    ensures
        !bytes_lt(b, a),
    decreases a.len(),
{
    if a.len() != 0 && b.len() != 0 && a[0] == b[0] {
        lemma_bytes_lt_asym(a.drop_first(), b.drop_first());
    }
}

proof fn lemma_bytes_lt_asym_self(a: Seq<u8>)
    ensures
        !bytes_lt(a, a),
{
    if bytes_lt(a, a) {
        lemma_bytes_lt_asym(a, a);
    }
}

proof fn lemma_bytes_lt_total(a: Seq<u8>, b: Seq<u8>)
    ensures
        bytes_lt(a, b) || bytes_lt(b, a) || a == b,
    decreases a.len(),
{
    if a.len() == 0 && b.len() == 0 {
        assert(a =~= b);
    } else if a.len() != 0 && b.len() != 0 && a[0] == b[0] {
        lemma_bytes_lt_total(a.drop_first(), b.drop_first());
        if a.drop_first() == b.drop_first() {
            assert(a =~= seq![a[0]] + a.drop_first());
            assert(b =~= seq![b[0]] + b.drop_first());
        }
    }
}

proof fn lemma_bytes_lt_trans(a: Seq<u8>, b: Seq<u8>, c: Seq<u8>)
    requires
        bytes_lt(a, b),
        bytes_lt(b, c),
    ensures
        bytes_lt(a, c),
    decreases a.len(),
{
    if a.len() != 0 && b.len() != 0 && c.len() != 0 && a[0] == b[0] && b[0] == c[0] {
        lemma_bytes_lt_trans(a.drop_first(), b.drop_first(), c.drop_first());
    }
}

proof fn lemma_bytes_lt_common_prefix(a: Seq<u8>, b: Seq<u8>, i: int)
    requires
        0 <= i <= a.len(),
        i <= b.len(),
        forall|j: int| 0 <= j < i ==> a[j] == b[j],
    ensures
        bytes_lt(a, b) == bytes_lt(a.skip(i), b.skip(i)),
    decreases i,
{
    if i == 0 {
        assert(a.skip(0) =~= a);
        assert(b.skip(0) =~= b);
    } else {
        lemma_bytes_lt_common_prefix(a.drop_first(), b.drop_first(), i - 1);
        assert(a.drop_first().skip(i - 1) =~= a.skip(i));
        assert(b.drop_first().skip(i - 1) =~= b.skip(i));
    }
}

/// Of two addresses, exactly one of `addr_lt(a, b)`, `addr_lt(b, a)` and
/// `a == b` holds: the order is total and strict.
pub proof fn lemma_addr_order(a: AddrView, b: AddrView)
    ensures
        addr_lt(a, b) ==> !addr_lt(b, a) && a != b,
        !addr_lt(a, b) && !addr_lt(b, a) ==> a == b,
{
    let ab = encode_utf8(a.ip);
    let bb = encode_utf8(b.ip);
    if addr_lt(a, b) {
        if bytes_lt(ab, bb) {
            lemma_bytes_lt_asym(ab, bb);
            if ab == bb {
                assert(false);
            }
        } else {
            if bytes_lt(bb, ab) {
                lemma_bytes_lt_asym(bb, ab);
                assert(false);
            }
        }
    }
    if !addr_lt(a, b) && !addr_lt(b, a) {
        lemma_bytes_lt_total(ab, bb);
        encode_utf8_decode_utf8(a.ip);
        encode_utf8_decode_utf8(b.ip);
        assert(a.ip == b.ip);
        assert(a =~= b);
    }
}

/// The order is transitive.
pub proof fn lemma_addr_lt_trans(a: AddrView, b: AddrView, c: AddrView)
    requires
        addr_lt(a, b),
        addr_lt(b, c),
    ensures
        addr_lt(a, c),
{
    let ab = encode_utf8(a.ip);
    let bb = encode_utf8(b.ip);
    let cb = encode_utf8(c.ip);
    if bytes_lt(ab, bb) && bytes_lt(bb, cb) {
        lemma_bytes_lt_trans(ab, bb, cb);
    }
}

impl ServerAddress {
    /// Whether `self` comes at or before `other` in the `(ip, port)`
    /// order.
    pub fn le(&self, other: &ServerAddress) -> (r: bool)
        ensures
            r == addr_le(self@, other@),
    {
        let a: &[u8] = self.ip.as_str().as_bytes();
        let b: &[u8] = other.ip.as_str().as_bytes();
        proof {
            assert(a@ == encode_utf8(self@.ip));
            assert(b@ == encode_utf8(other@.ip));
        }
        let alen = a.len();
        let blen = b.len();
        let n = if alen < blen {
            alen
        } else {
            blen
        };
        let mut i: usize = 0;
        while i < n && a[i] == b[i]
            invariant
                n <= a@.len(),
                n <= b@.len(),
                n == a@.len() || n == b@.len(),
                0 <= i <= n,
                forall|j: int| 0 <= j < i ==> a@[j] == b@[j],
            decreases n - i,
        {
            i += 1;
        }
        proof {
            lemma_bytes_lt_common_prefix(a@, b@, i as int);
            lemma_bytes_lt_common_prefix(b@, a@, i as int);
        }
        if i < n {
            // The first differing byte decides.
            if a[i] < b[i] {
                proof {
                    assert(a@.skip(i as int)[0] == a@[i as int]);
                    assert(b@.skip(i as int)[0] == b@[i as int]);
                    assert(bytes_lt(a@.skip(i as int), b@.skip(i as int)));
                }
                true
            } else {
                proof {
                    assert(a@.skip(i as int)[0] == a@[i as int]);
                    assert(b@.skip(i as int)[0] == b@[i as int]);
                    assert(bytes_lt(b@.skip(i as int), a@.skip(i as int)));
                    lemma_bytes_lt_asym(b@, a@);
                    assert(self@.ip != other@.ip);
                }
                false
            }
        } else if alen < blen {
            // self.ip is a strict prefix of other.ip.
            proof {
                assert(a@.skip(i as int).len() == 0);
                assert(b@.skip(i as int).len() > 0);
            }
            true
        } else if blen < alen {
            proof {
                assert(b@.skip(i as int).len() == 0);
                assert(a@.skip(i as int).len() > 0);
                lemma_bytes_lt_asym(b@, a@);
                assert(self@.ip != other@.ip);
            }
            false
        } else {
            // Byte-equal IP strings are the same string; the port decides.
            proof {
                assert(a@ =~= b@);
                encode_utf8_decode_utf8(self@.ip);
                encode_utf8_decode_utf8(other@.ip);
                assert(self@.ip == other@.ip);
                lemma_bytes_lt_asym_self(a@);
                if self.port == other.port {
                    assert(self@ =~= other@);
                }
            }
            self.port <= other.port
        }
    }
}

impl PartialEq for ServerAddress {
    fn eq(&self, other: &ServerAddress) -> (r: bool) {
        let r = self.ip == other.ip && self.port == other.port;
        proof {
            if r {
                assert(self@ =~= other@);
            }
        }
        r
    }
}

impl vstd::std_specs::cmp::PartialEqSpecImpl for ServerAddress {
    open spec fn obeys_eq_spec() -> bool {
        true
    }

    open spec fn eq_spec(&self, other: &ServerAddress) -> bool {
        self@ == other@
    }
}

impl Clone for ServerAddress {
    fn clone(&self) -> (r: Self)
        ensures
            r@ == self@,
    {
        let r = ServerAddress { ip: self.ip.clone(), port: self.port };
        proof {
            assert(r@ =~= self@);
        }
        r
    }
}

} // verus!
