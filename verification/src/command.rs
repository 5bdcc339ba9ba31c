//! Parsing a master server's response and normalizing the result.

use vstd::prelude::*;

use crate::server_address::{
    addr_lt, lemma_addr_lt_trans, lemma_addr_order, record_view, AddrView,
    RawServerAddress, ServerAddress, RAW_ADDRESS_SIZE,
};

verus! {

/// The reply of a master server that does not begin with the six-byte
/// response header is invalid.
#[derive(Clone, Copy, Debug, PartialEq, Eq, Structural)]
pub enum ResponseError {
    InvalidResponse,
}

impl ResponseError {
    /// Human-readable description of the error.
    pub fn message(&self) -> (s: String)
        ensures
            s@ == "Invalid response"@,
    {
        "Invalid response".to_owned()
    }
}

/// The six bytes every well-formed response starts with.
pub open spec fn response_header() -> Seq<u8> {
    seq![0xffu8, 0xffu8, 0xffu8, 0xffu8, 0x64u8, 0x0au8]
}

/// Whether a response begins with the six-byte header.
pub open spec fn has_response_header(r: Seq<u8>) -> bool {
    r.len() >= 6 && r.subrange(0, 6) == response_header()
}

/// The addresses packed into a response body: one per full six-byte
/// record, in wire order; a trailing shorter remainder carries none.
pub open spec fn parse_body(body: Seq<u8>) -> Seq<AddrView> {
    Seq::new(body.len() / 6, |i: int| record_view(body.subrange(6 * i, 6 * i + 6)))
}

/// The addresses a sequence of decoded records stands for, in order.
pub open spec fn addr_views(s: Seq<ServerAddress>) -> Seq<AddrView> {
    Seq::new(s.len(), |i: int| s[i]@)
}

/// Every address comes strictly before the next: ascending, and free of
/// duplicates.
pub open spec fn strictly_sorted(s: Seq<ServerAddress>) -> bool {
    forall|i: int, j: int| 0 <= i < j < s.len() ==> addr_lt(s[i]@, s[j]@)
}

/// Whether the sequence holds an element with the given address value.
pub open spec fn has_addr(s: Seq<ServerAddress>, a: AddrView) -> bool {
    exists|k: int| 0 <= k < s.len() && s[k]@ == a
}

/// Reads the addresses out of one master server response.
///
/// Fails exactly when the response does not start with the header; the
/// records that follow it are decoded in wire order, and a trailing
/// remainder shorter than one record is dropped.
pub fn parse_servers_response(response: &[u8]) -> (r: Result<Vec<ServerAddress>, ResponseError>)
    ensures
        r is Ok <==> has_response_header(response@),
        r matches Err(e) ==> e == ResponseError::InvalidResponse,
        r matches Ok(v) ==> addr_views(v@) == parse_body(response@.skip(6)),
{
    proof {
        if response@.len() >= 6 {
            assert(response@.subrange(0, 6)[0] == response@[0]);
            assert(response@.subrange(0, 6)[1] == response@[1]);
            assert(response@.subrange(0, 6)[2] == response@[2]);
            assert(response@.subrange(0, 6)[3] == response@[3]);
            assert(response@.subrange(0, 6)[4] == response@[4]);
            assert(response@.subrange(0, 6)[5] == response@[5]);
        }
    }
    if response.len() < RAW_ADDRESS_SIZE {
        return Err(ResponseError::InvalidResponse);
    }
    if !(response[0] == 0xff && response[1] == 0xff && response[2] == 0xff && response[3] == 0xff
        && response[4] == 0x64 && response[5] == 0x0a) {
        return Err(ResponseError::InvalidResponse);
    }
    proof {
        assert(response@.subrange(0, 6) =~= response_header());
    }
    let ghost body = response@.skip(6);
    let n = (response.len() - RAW_ADDRESS_SIZE) / RAW_ADDRESS_SIZE;
    let mut servers: Vec<ServerAddress> = Vec::new();
    let mut j: usize = 0;
    while j < n
        invariant
            6 <= response@.len() <= usize::MAX,
            n == (response@.len() - 6) / 6,
            body == response@.skip(6),
            0 <= j <= n,
            servers@.len() == j,
            forall|k: int| 0 <= k < j ==> servers@[k]@ == parse_body(body)[k],
        decreases n - j,
    {
        proof {
            assert(6 * j + 6 <= response@.len() - 6) by (nonlinear_arith)
                requires
                    0 <= j < n,
                    n == (response@.len() - 6) / 6,
                    response@.len() >= 6,
            ;
        }
        let base = RAW_ADDRESS_SIZE + RAW_ADDRESS_SIZE * j;
        let raw = RawServerAddress {
            ip: [response[base], response[base + 1], response[base + 2], response[base + 3]],
            port: (response[base + 4] as u16) * 256 + (response[base + 5] as u16),
        };
        let addr = ServerAddress::from(raw);
        proof {
            let rec = body.subrange(6 * j, 6 * j + 6);
            assert(rec[0] == response@[base as int]);
            assert(rec[1] == response@[base + 1]);
            assert(rec[2] == response@[base + 2]);
            assert(rec[3] == response@[base + 3]);
            assert(rec[4] == response@[base + 4]);
            assert(rec[5] == response@[base + 5]);
            assert(raw.ip@ =~= rec.subrange(0, 4));
            assert(addr@ =~= parse_body(body)[j as int]);
        }
        servers.push(addr);
        j += 1;
    }
    proof {
        assert(body.len() / 6 == n);
        assert(addr_views(servers@) =~= parse_body(body));
    }
    Ok(servers)
}

/// A trailing remainder shorter than one record never changes what a
/// body parses to: a body of whole records followed by up to five more
/// bytes parses to exactly the records' addresses.
pub proof fn lemma_trailing_remainder_dropped(body: Seq<u8>, extra: Seq<u8>)
    requires
        body.len() % 6 == 0,
        extra.len() < 6,
    ensures
        parse_body(body + extra) == parse_body(body),
        parse_body(body).len() == body.len() / 6,
{
    assert((body + extra).len() / 6 == body.len() / 6);
    assert forall|i: int|
        0 <= i < body.len() / 6 implies #[trigger] (body + extra).subrange(6 * i, 6 * i + 6)
            == body.subrange(6 * i, 6 * i + 6) by {
        assert(6 * i + 6 <= body.len()) by (nonlinear_arith)
            requires
                0 <= i < body.len() / 6,
                body.len() % 6 == 0,
        ;
        assert((body + extra).subrange(6 * i, 6 * i + 6) =~= body.subrange(6 * i, 6 * i + 6));
    };
    assert(parse_body(body + extra) =~= parse_body(body));
}

/// Two strictly ascending sequences that hold the same address values
/// are the same sequence of addresses: the normal form is canonical, so
/// normalizing a normal form gives it back unchanged.
pub proof fn lemma_canonical_order(s1: Seq<ServerAddress>, s2: Seq<ServerAddress>)
    requires
        strictly_sorted(s1),
        strictly_sorted(s2),
        forall|a: AddrView| has_addr(s1, a) <==> has_addr(s2, a),
    ensures
        s1.len() == s2.len(),
        addr_views(s1) == addr_views(s2),
    decreases s1.len(),
{
    if s1.len() == 0 {
        if s2.len() > 0 {
            assert(has_addr(s2, s2[0]@));
            assert(false);
        }
        assert(addr_views(s1) =~= addr_views(s2));
    } else {
        if s2.len() == 0 {
            assert(has_addr(s1, s1[0]@));
            assert(false);
        }
        assert(has_addr(s1, s1[0]@));
        let k = choose|k: int| 0 <= k < s2.len() && s2[k]@ == s1[0]@;
        assert(has_addr(s2, s2[0]@));
        let m = choose|m: int| 0 <= m < s1.len() && s1[m]@ == s2[0]@;
        if k > 0 {
            assert(addr_lt(s2[0]@, s2[k]@));
            if m > 0 {
                assert(addr_lt(s1[0]@, s1[m]@));
                lemma_addr_lt_trans(s1[0]@, s2[0]@, s1[0]@);
                lemma_addr_order(s1[0]@, s1[0]@);
                assert(false);
            } else {
                lemma_addr_order(s2[0]@, s1[0]@);
                assert(false);
            }
        }
        assert(s1[0]@ == s2[0]@);
        let t1 = s1.drop_first();
        let t2 = s2.drop_first();
        assert forall|i: int, j: int| 0 <= i < j < t1.len() implies addr_lt(t1[i]@, t1[j]@) by {
            assert(t1[i] == s1[i + 1]);
            assert(t1[j] == s1[j + 1]);
        };
        assert forall|i: int, j: int| 0 <= i < j < t2.len() implies addr_lt(t2[i]@, t2[j]@) by {
            assert(t2[i] == s2[i + 1]);
            assert(t2[j] == s2[j + 1]);
        };
        assert forall|a: AddrView| has_addr(t1, a) implies has_addr(t2, a) by {
            let q = choose|q: int| 0 <= q < t1.len() && t1[q]@ == a;
            assert(s1[q + 1]@ == a);
            assert(has_addr(s1, a));
            let w = choose|w: int| 0 <= w < s2.len() && s2[w]@ == a;
            if w == 0 {
                assert(addr_lt(s1[0]@, s1[q + 1]@));
                lemma_addr_order(s1[0]@, s1[q + 1]@);
                assert(false);
            }
            assert(t2[w - 1]@ == a);
        };
        assert forall|a: AddrView| has_addr(t2, a) implies has_addr(t1, a) by {
            let q = choose|q: int| 0 <= q < t2.len() && t2[q]@ == a;
            assert(s2[q + 1]@ == a);
            assert(has_addr(s2, a));
            let w = choose|w: int| 0 <= w < s1.len() && s1[w]@ == a;
            if w == 0 {
                assert(addr_lt(s2[0]@, s2[q + 1]@));
                lemma_addr_order(s2[0]@, s2[q + 1]@);
                assert(false);
            }
            assert(t1[w - 1]@ == a);
        };
        lemma_canonical_order(t1, t2);
        assert forall|i: int| 0 <= i < s1.len() implies s1[i]@ == s2[i]@ by {
            if i > 0 {
                assert(addr_views(t1)[i - 1] == addr_views(t2)[i - 1]);
                assert(t1[i - 1] == s1[i]);
                assert(t2[i - 1] == s2[i]);
            }
        };
        assert(addr_views(s1) =~= addr_views(s2));
    }
}

/// Merging two result lists holds an address exactly when one of the
/// two holds it; with [`sorted_and_unique`] this pins the fan-out's
/// merge down to the sorted union of the merged lists.
pub proof fn lemma_has_addr_concat(u: Seq<ServerAddress>, v: Seq<ServerAddress>)
    ensures
        forall|a: AddrView| has_addr(u + v, a) <==> has_addr(u, a) || has_addr(v, a),
{
    assert forall|a: AddrView| has_addr(u + v, a) implies has_addr(u, a) || has_addr(v, a) by {
        let k = choose|k: int| 0 <= k < (u + v).len() && (u + v)[k]@ == a;
        if k < u.len() {
            assert(u[k]@ == a);
        } else {
            assert(v[k - u.len()]@ == a);
        }
    };
    assert forall|a: AddrView| has_addr(u, a) || has_addr(v, a) implies has_addr(u + v, a) by {
        if has_addr(u, a) {
            let k = choose|k: int| 0 <= k < u.len() && u[k]@ == a;
            assert((u + v)[k]@ == a);
        } else {
            let k = choose|k: int| 0 <= k < v.len() && v[k]@ == a;
            assert((u + v)[u.len() + k]@ == a);
        }
    };
}

proof fn lemma_has_addr_split(s: Seq<ServerAddress>, i: int)
    requires
        0 <= i <= s.len(),
    ensures
        forall|a: AddrView| has_addr(s, a) <==> has_addr(s.take(i), a) || has_addr(s.skip(i), a),
{
    lemma_has_addr_concat(s.take(i), s.skip(i));
    assert(s.take(i) + s.skip(i) =~= s);
}

/// Puts `x` where it belongs in a strictly ascending vector, unless an
/// equal address is already there.
fn insert_unique(servers: &mut Vec<ServerAddress>, x: ServerAddress)
    requires
        strictly_sorted(old(servers)@),
    ensures
        strictly_sorted(final(servers)@),
        forall|a: AddrView|
            has_addr(final(servers)@, a) <==> (has_addr(old(servers)@, a) || a == x@),
{
    let mut i: usize = 0;
    while i < servers.len() && !x.le(&servers[i])
        invariant
            0 <= i <= servers@.len(),
            servers@ == old(servers)@,
            strictly_sorted(servers@),
            forall|j: int| 0 <= j < i ==> addr_lt(servers@[j]@, x@),
        decreases servers@.len() - i,
    {
        proof {
            lemma_addr_order(x@, servers@[i as int]@);
        }
        i += 1;
    }
    if i < servers.len() && servers[i] == x {
        // Already present: the vector covers x's address.
        proof {
            assert(servers@[i as int]@ == x@);
            assert(has_addr(servers@, x@));
        }
    } else {
        proof {
            if i < servers@.len() {
                lemma_addr_order(x@, servers@[i as int]@);
                assert(addr_lt(x@, servers@[i as int]@));
            }
        }
        let ghost before = servers@;
        servers.insert(i, x);
        proof {
            assert(servers@ =~= before.take(i as int) + (seq![x] + before.skip(i as int)));
            assert forall|k: int, l: int|
                0 <= k < l < servers@.len() implies addr_lt(
                servers@[k]@,
                servers@[l]@,
            ) by {
                let iv = i as int;
                if k < iv && l == iv {
                    assert(addr_lt(before[k]@, x@));
                } else if k < iv && l > iv {
                    assert(addr_lt(before[k]@, before[l - 1]@));
                } else if k == iv && l > iv {
                    if l - 1 > iv {
                        assert(addr_lt(x@, before[iv]@));
                        assert(addr_lt(before[iv]@, before[l - 1]@));
                        lemma_addr_lt_trans(x@, before[iv]@, before[l - 1]@);
                    }
                }
            };
            lemma_has_addr_concat(before.take(i as int), seq![x] + before.skip(i as int));
            lemma_has_addr_concat(seq![x], before.skip(i as int));
            lemma_has_addr_split(before, i as int);
            assert forall|a: AddrView| has_addr(seq![x], a) <==> a == x@ by {
                if has_addr(seq![x], a) {
                    let k = choose|k: int| 0 <= k < seq![x].len() && seq![x][k]@ == a;
                    assert(k == 0);
                } else {
                    assert(seq![x][0]@ == x@);
                }
            };
        }
    }
}

/// Sorts the addresses in ascending `(ip, port)` order and removes the
/// duplicates.
///
/// The result is strictly ascending and holds an address value exactly
/// when the input holds it; by [`lemma_canonical_order`] those two facts
/// determine it completely, so normalizing a second time changes
/// nothing.
pub fn sorted_and_unique(server_addresses: &[ServerAddress]) -> (r: Vec<ServerAddress>)
    ensures
        strictly_sorted(r@),
        forall|a: AddrView| has_addr(r@, a) <==> has_addr(server_addresses@, a),
{
    let mut servers: Vec<ServerAddress> = Vec::new();
    let mut i: usize = 0;
    while i < server_addresses.len()
        invariant
            0 <= i <= server_addresses@.len(),
            strictly_sorted(servers@),
            forall|a: AddrView|
                has_addr(servers@, a) <==> has_addr(server_addresses@.take(i as int), a),
        decreases server_addresses@.len() - i,
    {
        let x = server_addresses[i].clone();
        insert_unique(&mut servers, x);
        proof {
            let prefix = server_addresses@.take(i as int);
            assert(server_addresses@.take(i + 1) =~= prefix + seq![server_addresses@[i as int]]);
            lemma_has_addr_concat(prefix, seq![server_addresses@[i as int]]);
            assert forall|a: AddrView|
                has_addr(seq![server_addresses@[i as int]], a) <==> a == x@ by {
                if has_addr(seq![server_addresses@[i as int]], a) {
                    let k = choose|k: int|
                        0 <= k < 1 && seq![server_addresses@[i as int]][k]@ == a;
                    assert(k == 0);
                } else {
                    assert(seq![server_addresses@[i as int]][0]@ == x@);
                }
            };
        }
        i += 1;
    }
    proof {
        assert(server_addresses@.take(server_addresses@.len() as int) =~= server_addresses@);
    }
    servers
}

/// Reads the addresses out of one master server response and normalizes
/// them: ascending `(ip, port)` order, duplicates removed.
pub fn server_addresses(response: &[u8]) -> (r: Result<Vec<ServerAddress>, ResponseError>)
    ensures
        r is Ok <==> has_response_header(response@),
        r matches Err(e) ==> e == ResponseError::InvalidResponse,
        r matches Ok(v) ==> strictly_sorted(v@) && (forall|a: AddrView|
            has_addr(v@, a) <==> parse_body(response@.skip(6)).contains(a)),
{
    let parsed = match parse_servers_response(response) {
        Ok(p) => p,
        Err(err) => {
            return Err(err);
        },
    };
    let r = sorted_and_unique(parsed.as_slice());
    proof {
        let views = parse_body(response@.skip(6));
        assert forall|a: AddrView| has_addr(parsed@, a) implies views.contains(a) by {
            let k = choose|k: int| 0 <= k < parsed@.len() && parsed@[k]@ == a;
            assert(addr_views(parsed@)[k] == a);
            assert(views[k] == a);
        };
        assert forall|a: AddrView| views.contains(a) implies has_addr(parsed@, a) by {
            let k = choose|k: int| 0 <= k < views.len() && views[k] == a;
            assert(addr_views(parsed@)[k] == a);
            assert(parsed@[k]@ == a);
        };
    }
    Ok(r)
}

} // verus!
