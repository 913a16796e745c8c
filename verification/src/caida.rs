//! The CAIDA relationship-file converter: parsing the serial-2 format and
//! building a symmetric AS graph from it.
//!
//! Reading and decompressing the file is the caller's concern; this module
//! works on the file's lines as byte strings.

use vstd::prelude::*;

use crate::as_graph::{ASGraph, ASView, ASN, AS};
use crate::shared::CycleError;
use crate::vecs::{contains_asn, push_unique};

verus! {

/// Why a CAIDA file could not be converted.
#[derive(Debug, Clone, Copy, PartialEq, Eq, Structural)]
pub enum CaidaError {
    /// A data line carried an unparsable ASN field.
    Parse,
    /// The resulting customer-provider graph has a cycle or a self-loop.
    Cycle,
}

/// Whether a byte is an ASCII decimal digit.
pub open spec fn spec_is_digit(b: u8) -> bool {
    0x30 <= b <= 0x39
}

/// Whether a byte separates tokens: space, tab or carriage return.
pub open spec fn spec_is_ws(b: u8) -> bool {
    b == 0x20 || b == 0x09 || b == 0x0d
}

/// The value of a string of decimal digits, most significant first.
pub open spec fn spec_digits_value(s: Seq<u8>) -> nat
    decreases s.len(),
{
    if s.len() == 0 {
        0
    } else {
        spec_digits_value(s.drop_last()) * 10 + (if spec_is_digit(s.last()) {
            (s.last() - 0x30) as nat
        } else {
            0
        })
    }
}

/// Whether a byte string is a non-empty run of decimal digits.
pub open spec fn spec_all_digits(s: Seq<u8>) -> bool {
    s.len() > 0 && forall|i: int| 0 <= i < s.len() ==> spec_is_digit(#[trigger] s[i])
}

/// A longer digit string never has a smaller value.
proof fn lemma_digits_value_monotone(s: Seq<u8>, i: int)
    requires
        0 <= i <= s.len(),
    ensures
        spec_digits_value(s.take(i)) <= spec_digits_value(s),
    decreases s.len() - i,
{
    if i < s.len() {
        lemma_digits_value_monotone(s, i + 1);
        assert(s.take(i + 1).drop_last() =~= s.take(i));
        assert(spec_digits_value(s.take(i)) <= spec_digits_value(s.take(i + 1)));
    } else {
        assert(s.take(i) =~= s);
    }
}

/// Parse the decimal number in a byte range; None when the range is empty,
/// holds a non-digit, or overflows a u32.
pub fn parse_u32(line: &Vec<u8>, start: usize, end: usize) -> (r: Option<u32>)
    requires
        start <= end <= line@.len(),
    ensures
        r == (if spec_all_digits(line@.subrange(start as int, end as int)) && spec_digits_value(
            line@.subrange(start as int, end as int),
        ) <= u32::MAX {
            Some(spec_digits_value(line@.subrange(start as int, end as int)) as u32)
        } else {
            None::<u32>
        }),
{
    let ghost s = line@.subrange(start as int, end as int);
    if start == end {
        return None;
    }
    let mut acc: u64 = 0;
    let mut i: usize = start;
    while i < end
        invariant
            start <= i <= end <= line@.len(),
            s == line@.subrange(start as int, end as int),
            s.len() > 0,
            forall|j: int| 0 <= j < i - start ==> spec_is_digit(#[trigger] s[j]),
            acc == spec_digits_value(s.take(i - start)),
            acc <= u32::MAX,
        decreases end - i,
    {
        let b = line[i];
        if b < 0x30 || b > 0x39 {
            proof {
                assert(s[i - start] == line@[i as int]);
                assert(!spec_all_digits(s));
            }
            return None;
        }
        proof {
            assert(s.take(i - start + 1).drop_last() =~= s.take(i - start));
            assert(s.take(i - start + 1).last() == s[i - start]);
            assert(s[i - start] == line@[i as int]);
        }
        acc = acc * 10 + ((b - 0x30) as u64);
        if acc > 0xffff_ffff {
            proof {
                assert(spec_digits_value(s.take(i - start + 1)) > u32::MAX);
                lemma_digits_value_monotone(s, i - start + 1);
            }
            return None;
        }
        i = i + 1;
    }
    proof {
        assert(s.take(end - start) =~= s);
        assert(spec_all_digits(s));
    }
    Some(acc as u32)
}

/// The index of the first occurrence of a byte at or after an index.
pub fn find_byte(line: &Vec<u8>, from: usize, b: u8) -> (r: Option<usize>)
    requires
        from <= line@.len(),
    ensures
        match r {
            Some(i) => from <= i < line@.len() && line@[i as int] == b && forall|j: int|
                from <= j < i ==> line@[j] != b,
            None => forall|j: int| from <= j < line@.len() ==> line@[j] != b,
        },
{
    let mut i: usize = from;
    while i < line.len()
        invariant
            from <= i <= line@.len(),
            forall|j: int| from <= j < i ==> line@[j] != b,
        decreases line@.len() - i,
    {
        if line[i] == b {
            return Some(i);
        }
        i = i + 1;
    }
    None
}

/// Whether a line starts with a given byte prefix.
pub fn starts_with(line: &Vec<u8>, pat: &Vec<u8>) -> (r: bool)
    ensures
        r == (line@.len() >= pat@.len() && line@.take(pat@.len() as int) =~= pat@),
{
    if line.len() < pat.len() {
        return false;
    }
    let mut i: usize = 0;
    while i < pat.len()
        invariant
            pat@.len() <= line@.len(),
            i <= pat@.len(),
            forall|j: int| 0 <= j < i ==> line@[j] == pat@[j],
        decreases pat@.len() - i,
    {
        if line[i] != pat[i] {
            proof {
                assert(line@.take(pat@.len() as int)[i as int] != pat@[i as int]);
            }
            return false;
        }
        i = i + 1;
    }
    proof {
        assert(line@.take(pat@.len() as int) =~= pat@);
    }
    true
}

/// The end of the token starting at an index: the first separator at or
/// after it, or the end of the line.
fn token_end(line: &Vec<u8>, from: usize) -> (r: usize)
    requires
        from <= line@.len(),
    ensures
        from <= r <= line@.len(),
        forall|j: int| from <= j < r ==> !spec_is_ws(#[trigger] line@[j]),
        r < line@.len() ==> spec_is_ws(line@[r as int]),
{
    let mut i: usize = from;
    while i < line.len()
        invariant
            from <= i <= line@.len(),
            forall|j: int| from <= j < i ==> !spec_is_ws(#[trigger] line@[j]),
        decreases line@.len() - i,
    {
        let b = line[i];
        if b == 0x20 || b == 0x09 || b == 0x0d {
            return i;
        }
        i = i + 1;
    }
    i
}

/// Some decimal token of the line names this value.
pub open spec fn spec_line_names(line: Seq<u8>, from: int, v: u32) -> bool {
    exists|a: int, b: int|
        from <= a < b <= line.len() && spec_all_digits(#[trigger] line.subrange(a, b))
            && spec_digits_value(line.subrange(a, b)) == v
}

/// All ASNs named by whitespace-separated decimal tokens from an index on;
/// tokens that are not plain decimal numbers are skipped.
pub fn parse_asn_list(line: &Vec<u8>, from: usize) -> (r: Vec<ASN>)
    requires
        from <= line@.len(),
    ensures
        forall|i: int| 0 <= i < r@.len() ==> spec_line_names(line@, from as int, #[trigger] r@[i]),
{
    let mut r: Vec<ASN> = Vec::new();
    let mut i: usize = from;
    while i < line.len()
        invariant
            from <= i <= line@.len(),
            forall|t: int|
                0 <= t < r@.len() ==> spec_line_names(line@, from as int, #[trigger] r@[t]),
        decreases line@.len() - i,
    {
        let b = line[i];
        if b == 0x20 || b == 0x09 || b == 0x0d {
            i = i + 1;
        } else {
            let e = token_end(line, i);
            proof {
                assert(!spec_is_ws(line@[i as int]));
            }
            proof {
                if e == i {
                    assert(spec_is_ws(line@[i as int]));
                }
                assert(e > i);
            }
            match parse_u32(line, i, e) {
                Some(v) => {
                    let ghost pre_r = r@;
                    proof {
                        assert(spec_all_digits(line@.subrange(i as int, e as int)));
                    }
                    r.push(v);
                    proof {
                        assert forall|t: int| 0 <= t < r@.len() implies spec_line_names(
                            line@,
                            from as int,
                            #[trigger] r@[t],
                        ) by {
                            if t < pre_r.len() {
                                assert(r@[t] == pre_r[t]);
                            } else {
                                assert(r@[t] == v);
                                assert(from <= i as int && (i as int) < e as int && e as int
                                    <= line@.len() && spec_all_digits(
                                    line@.subrange(i as int, e as int),
                                ) && spec_digits_value(line@.subrange(i as int, e as int)) == v);
                                assert(spec_line_names(line@, from as int, v));
                            }
                        }
                    }
                },
                None => {},
            }
            if e > i {
                i = e;
            } else {
                i = i + 1;
            }
        }
    }
    r
}

/// Customer-provider and peer edges agree in both directions, and every
/// edge endpoint is a node of the graph.
pub open spec fn spec_edges_symmetric(g: Map<ASN, ASView>) -> bool {
    &&& forall|a: ASN, b: ASN|
        g.contains_key(a) && g.contains_key(b) ==> ((#[trigger] g[a].customers.contains(b))
            <==> g[b].providers.contains(a))
    &&& forall|a: ASN, b: ASN|
        g.contains_key(a) && g.contains_key(b) ==> ((#[trigger] g[a].peers.contains(b)) <==> g[b].peers.contains(
            a,
        ))
}

/// Every edge of the graph points at a present node.
pub open spec fn spec_edges_closed(g: Map<ASN, ASView>) -> bool {
    &&& forall|a: ASN, b: ASN|
        g.contains_key(a) && #[trigger] g[a].customers.contains(b) ==> g.contains_key(b)
    &&& forall|a: ASN, b: ASN|
        g.contains_key(a) && #[trigger] g[a].providers.contains(b) ==> g.contains_key(b)
    &&& forall|a: ASN, b: ASN|
        g.contains_key(a) && #[trigger] g[a].peers.contains(b) ==> g.contains_key(b)
}



/// Adding an isolated node keeps the construction invariants.
proof fn lemma_ok_after_new(g0: Map<ASN, ASView>, g2: Map<ASN, ASView>, asn: ASN)
    requires
        spec_caida_graph_ok(g0),
        !g0.contains_key(asn),
        forall|x: ASN| g2.contains_key(x) <==> (g0.contains_key(x) || x == asn),
        forall|x: ASN| g0.contains_key(x) ==> #[trigger] g2[x] == g0[x],
        g2[asn].customers.len() == 0,
        g2[asn].providers.len() == 0,
        g2[asn].peers.len() == 0,
    ensures
        spec_caida_graph_ok(g2),
{
    assert forall|a: ASN, b: ASN|
        g2.contains_key(a) && g2.contains_key(b) implies ((#[trigger] g2[a].customers.contains(b))
        <==> g2[b].providers.contains(a)) by {
        if a == asn {
            assert(!g2[a].customers.contains(b));
            if b != asn {
                assert(g2[b] == g0[b]);
                if g0[b].providers.contains(asn) {
                    assert(g0.contains_key(asn));
                }
            } else {
                assert(!g2[b].providers.contains(a));
            }
        } else if b == asn {
            assert(g2[a] == g0[a]);
            if g0[a].customers.contains(asn) {
                assert(g0.contains_key(asn));
            }
            assert(!g2[b].providers.contains(a));
        } else {
            assert(g2[a] == g0[a] && g2[b] == g0[b]);
        }
    }
    assert forall|a: ASN, b: ASN|
        g2.contains_key(a) && g2.contains_key(b) implies ((#[trigger] g2[a].peers.contains(b))
        <==> g2[b].peers.contains(a)) by {
        if a == asn {
            assert(!g2[a].peers.contains(b));
            if b != asn {
                assert(g2[b] == g0[b]);
                if g0[b].peers.contains(asn) {
                    assert(g0.contains_key(asn));
                }
            } else {
                assert(!g2[b].peers.contains(a));
            }
        } else if b == asn {
            assert(g2[a] == g0[a]);
            if g0[a].peers.contains(asn) {
                assert(g0.contains_key(asn));
            }
            assert(!g2[b].peers.contains(a));
        } else {
            assert(g2[a] == g0[a] && g2[b] == g0[b]);
        }
    }
    assert forall|a: ASN, b: ASN|
        g2.contains_key(a) && #[trigger] g2[a].customers.contains(b) implies g2.contains_key(
        b,
    ) by {
        assert(a != asn);
        assert(g2[a] == g0[a] && g0.contains_key(a));
    }
    assert forall|a: ASN, b: ASN|
        g2.contains_key(a) && #[trigger] g2[a].providers.contains(b) implies g2.contains_key(
        b,
    ) by {
        assert(a != asn);
        assert(g2[a] == g0[a] && g0.contains_key(a));
    }
    assert forall|a: ASN, b: ASN|
        g2.contains_key(a) && #[trigger] g2[a].peers.contains(b) implies g2.contains_key(b) by {
        assert(a != asn);
        assert(g2[a] == g0[a] && g0.contains_key(a));
    }
}

/// Adding one customer-provider edge in both directions keeps the
/// construction invariants.
proof fn lemma_ok_after_cp_edge(g0: Map<ASN, ASView>, g2: Map<ASN, ASView>, a1: ASN, a2: ASN)
    requires
        spec_caida_graph_ok(g0),
        g0.contains_key(a1),
        g0.contains_key(a2),
        forall|x: ASN| g2.contains_key(x) <==> g0.contains_key(x),
        forall|x: ASN|
            g0.contains_key(x) && x != a1 && x != a2 ==> #[trigger] g2[x] == g0[x],
        forall|x: ASN|
            #[trigger] g2[a1].customers.contains(x) <==> (g0[a1].customers.contains(x) || x == a2),
        forall|x: ASN|
            #[trigger] g2[a2].providers.contains(x) <==> (g0[a2].providers.contains(x) || x == a1),
        forall|x: ASN|
            #[trigger] g2[a1].providers.contains(x) <==> (g0[a1].providers.contains(x) || (a1 == a2
                && x == a1)),
        forall|x: ASN|
            #[trigger] g2[a2].customers.contains(x) <==> (g0[a2].customers.contains(x) || (a1 == a2
                && x == a2)),
        g2[a1].peers == g0[a1].peers,
        g2[a2].peers == g0[a2].peers,
    ensures
        spec_caida_graph_ok(g2),
{
    assert forall|a: ASN, b: ASN|
        g2.contains_key(a) && g2.contains_key(b) implies ((#[trigger] g2[a].customers.contains(b))
        <==> g2[b].providers.contains(a)) by {
        assert(g0.contains_key(a) && g0.contains_key(b));
        if a != a1 && a != a2 {
            assert(g2[a] == g0[a]);
        }
        if b != a1 && b != a2 {
            assert(g2[b] == g0[b]);
        }
        assert(g0[a].customers.contains(b) <==> g0[b].providers.contains(a));
    }
    assert forall|a: ASN, b: ASN|
        g2.contains_key(a) && g2.contains_key(b) implies ((#[trigger] g2[a].peers.contains(b))
        <==> g2[b].peers.contains(a)) by {
        assert(g0.contains_key(a) && g0.contains_key(b));
        if a != a1 && a != a2 {
            assert(g2[a] == g0[a]);
        }
        if b != a1 && b != a2 {
            assert(g2[b] == g0[b]);
        }
        assert(g0[a].peers.contains(b) <==> g0[b].peers.contains(a));
    }
    assert forall|a: ASN, b: ASN|
        g2.contains_key(a) && #[trigger] g2[a].customers.contains(b) implies g2.contains_key(
        b,
    ) by {
        assert(g0.contains_key(a));
        if a != a1 && a != a2 {
            assert(g2[a] == g0[a]);
        }
        assert(g0[a].customers.contains(b) || b == a2);
    }
    assert forall|a: ASN, b: ASN|
        g2.contains_key(a) && #[trigger] g2[a].providers.contains(b) implies g2.contains_key(
        b,
    ) by {
        assert(g0.contains_key(a));
        if a != a1 && a != a2 {
            assert(g2[a] == g0[a]);
        }
        assert(g0[a].providers.contains(b) || b == a1 || b == a2);
    }
    assert forall|a: ASN, b: ASN|
        g2.contains_key(a) && #[trigger] g2[a].peers.contains(b) implies g2.contains_key(b) by {
        assert(g0.contains_key(a));
        if a != a1 && a != a2 {
            assert(g2[a] == g0[a]);
        }
        assert(g0[a].peers.contains(b) || false);
    }
}

/// Adding one peer edge in both directions keeps the construction
/// invariants.
proof fn lemma_ok_after_peer_edge(g0: Map<ASN, ASView>, g2: Map<ASN, ASView>, a1: ASN, a2: ASN)
    requires
        spec_caida_graph_ok(g0),
        g0.contains_key(a1),
        g0.contains_key(a2),
        forall|x: ASN| g2.contains_key(x) <==> g0.contains_key(x),
        forall|x: ASN|
            g0.contains_key(x) && x != a1 && x != a2 ==> #[trigger] g2[x] == g0[x],
        forall|x: ASN|
            #[trigger] g2[a1].peers.contains(x) <==> (g0[a1].peers.contains(x) || x == a2 || (a1
                == a2 && x == a1)),
        forall|x: ASN|
            #[trigger] g2[a2].peers.contains(x) <==> (g0[a2].peers.contains(x) || x == a1 || (a1
                == a2 && x == a2)),
        g2[a1].customers == g0[a1].customers,
        g2[a2].customers == g0[a2].customers,
        g2[a1].providers == g0[a1].providers,
        g2[a2].providers == g0[a2].providers,
    ensures
        spec_caida_graph_ok(g2),
{
    assert forall|a: ASN, b: ASN|
        g2.contains_key(a) && g2.contains_key(b) implies ((#[trigger] g2[a].customers.contains(b))
        <==> g2[b].providers.contains(a)) by {
        assert(g0.contains_key(a) && g0.contains_key(b));
        if a != a1 && a != a2 {
            assert(g2[a] == g0[a]);
        }
        if b != a1 && b != a2 {
            assert(g2[b] == g0[b]);
        }
        assert(g0[a].customers.contains(b) <==> g0[b].providers.contains(a));
    }
    assert forall|a: ASN, b: ASN|
        g2.contains_key(a) && g2.contains_key(b) implies ((#[trigger] g2[a].peers.contains(b))
        <==> g2[b].peers.contains(a)) by {
        assert(g0.contains_key(a) && g0.contains_key(b));
        if a != a1 && a != a2 {
            assert(g2[a] == g0[a]);
        }
        if b != a1 && b != a2 {
            assert(g2[b] == g0[b]);
        }
        assert(g0[a].peers.contains(b) <==> g0[b].peers.contains(a));
    }
    assert forall|a: ASN, b: ASN|
        g2.contains_key(a) && #[trigger] g2[a].customers.contains(b) implies g2.contains_key(
        b,
    ) by {
        assert(g0.contains_key(a));
        if a != a1 && a != a2 {
            assert(g2[a] == g0[a]);
        }
        assert(g0[a].customers.contains(b) || false);
    }
    assert forall|a: ASN, b: ASN|
        g2.contains_key(a) && #[trigger] g2[a].providers.contains(b) implies g2.contains_key(
        b,
    ) by {
        assert(g0.contains_key(a));
        if a != a1 && a != a2 {
            assert(g2[a] == g0[a]);
        }
        assert(g0[a].providers.contains(b) || false);
    }
    assert forall|a: ASN, b: ASN|
        g2.contains_key(a) && #[trigger] g2[a].peers.contains(b) implies g2.contains_key(b) by {
        assert(g0.contains_key(a));
        if a != a1 && a != a2 {
            assert(g2[a] == g0[a]);
        }
        assert(g0[a].peers.contains(b) || b == a1 || b == a2);
    }
}

/// Changing only the tier-1 and IXP flags of one node keeps the
/// construction invariants.
proof fn lemma_ok_after_flags(g0: Map<ASN, ASView>, g2: Map<ASN, ASView>, asn: ASN)
    requires
        spec_caida_graph_ok(g0),
        g0.contains_key(asn),
        forall|x: ASN| g2.contains_key(x) <==> g0.contains_key(x),
        forall|x: ASN| g0.contains_key(x) && x != asn ==> #[trigger] g2[x] == g0[x],
        g2[asn].customers == g0[asn].customers,
        g2[asn].providers == g0[asn].providers,
        g2[asn].peers == g0[asn].peers,
    ensures
        spec_caida_graph_ok(g2),
{
    assert forall|a: ASN, b: ASN|
        g2.contains_key(a) && g2.contains_key(b) implies ((#[trigger] g2[a].customers.contains(b))
        <==> g2[b].providers.contains(a)) by {
        assert(g0.contains_key(a) && g0.contains_key(b));
        if a != asn {
            assert(g2[a] == g0[a]);
        }
        if b != asn {
            assert(g2[b] == g0[b]);
        }
        assert(g0[a].customers.contains(b) <==> g0[b].providers.contains(a));
    }
    assert forall|a: ASN, b: ASN|
        g2.contains_key(a) && g2.contains_key(b) implies ((#[trigger] g2[a].peers.contains(b))
        <==> g2[b].peers.contains(a)) by {
        assert(g0.contains_key(a) && g0.contains_key(b));
        if a != asn {
            assert(g2[a] == g0[a]);
        }
        if b != asn {
            assert(g2[b] == g0[b]);
        }
        assert(g0[a].peers.contains(b) <==> g0[b].peers.contains(a));
    }
    assert forall|a: ASN, b: ASN|
        g2.contains_key(a) && #[trigger] g2[a].customers.contains(b) implies g2.contains_key(
        b,
    ) by {
        assert(g0.contains_key(a));
        if a != asn {
            assert(g2[a] == g0[a]);
        }
        assert(g0[a].customers.contains(b) || false);
    }
    assert forall|a: ASN, b: ASN|
        g2.contains_key(a) && #[trigger] g2[a].providers.contains(b) implies g2.contains_key(
        b,
    ) by {
        assert(g0.contains_key(a));
        if a != asn {
            assert(g2[a] == g0[a]);
        }
        assert(g0[a].providers.contains(b) || false);
    }
    assert forall|a: ASN, b: ASN|
        g2.contains_key(a) && #[trigger] g2[a].peers.contains(b) implies g2.contains_key(b) by {
        assert(g0.contains_key(a));
        if a != asn {
            assert(g2[a] == g0[a]);
        }
        assert(g0[a].peers.contains(b) || false);
    }
}

/// The content of a graph under construction: its nodes are the endpoints
/// the processed lines name, and its edges are the edges they list.
pub open spec fn spec_lines_content(lines: Seq<Vec<u8>>, upto: int, gm: Map<ASN, ASView>) -> bool {
    &&& forall|x: ASN| #[trigger] gm.contains_key(x) <==> spec_lines_name_node(lines, upto, x)
    &&& forall|a: ASN, b: ASN|
        gm.contains_key(a) ==> ((#[trigger] gm[a].customers.contains(b)) <==> spec_lines_cp_edge(
            lines,
            upto,
            a,
            b,
        ))
    &&& forall|a: ASN, b: ASN|
        gm.contains_key(a) ==> ((#[trigger] gm[a].providers.contains(b)) <==> spec_lines_cp_edge(
            lines,
            upto,
            b,
            a,
        ))
    &&& forall|a: ASN, b: ASN|
        gm.contains_key(a) ==> ((#[trigger] gm[a].peers.contains(b)) <==> spec_lines_peer_edge(
            lines,
            upto,
            a,
            b,
        ))
}

/// A line that adds no endpoints extends the content relation unchanged.
proof fn lemma_content_skip(lines: Seq<Vec<u8>>, gm: Map<ASN, ASView>, i: int)
    requires
        0 <= i < lines.len(),
        spec_line_endpoints(lines[i]@) is None,
        spec_lines_content(lines, i, gm),
    ensures
        spec_lines_content(lines, i + 1, gm),
{
    assert(spec_line_edge(lines[i]@) is None);
    assert forall|x: ASN| #[trigger] gm.contains_key(x) <==> spec_lines_name_node(
        lines,
        i + 1,
        x,
    ) by {
        if spec_lines_name_node(lines, i + 1, x) && !spec_lines_name_node(lines, i, x) {
            let i2 = choose|i2: int|
                0 <= i2 < i + 1 && {
                    let e = spec_line_endpoints((#[trigger] lines[i2])@);
                    e is Some && (e.unwrap().0 == x || e.unwrap().1 == x)
                };
            assert(i2 == i);
            assert(false);
        }
    }
    assert forall|a: ASN, b: ASN|
        gm.contains_key(a) implies ((#[trigger] gm[a].customers.contains(b))
        <==> spec_lines_cp_edge(lines, i + 1, a, b)) by {
        if spec_lines_cp_edge(lines, i + 1, a, b) && !spec_lines_cp_edge(lines, i, a, b) {
            let i2 = choose|i2: int|
                0 <= i2 < i + 1 && spec_line_edge((#[trigger] lines[i2])@) == Some((a, b, false));
            assert(i2 == i);
            assert(false);
        }
    }
    assert forall|a: ASN, b: ASN|
        gm.contains_key(a) implies ((#[trigger] gm[a].providers.contains(b))
        <==> spec_lines_cp_edge(lines, i + 1, b, a)) by {
        if spec_lines_cp_edge(lines, i + 1, b, a) && !spec_lines_cp_edge(lines, i, b, a) {
            let i2 = choose|i2: int|
                0 <= i2 < i + 1 && spec_line_edge((#[trigger] lines[i2])@) == Some((b, a, false));
            assert(i2 == i);
            assert(false);
        }
    }
    assert forall|a: ASN, b: ASN|
        gm.contains_key(a) implies ((#[trigger] gm[a].peers.contains(b)) <==> spec_lines_peer_edge(
            lines,
            i + 1,
            a,
            b,
        )) by {
        if spec_lines_peer_edge(lines, i + 1, a, b) && !spec_lines_peer_edge(lines, i, a, b) {
            let i2 = choose|i2: int|
                0 <= i2 < i + 1 && (spec_line_edge((#[trigger] lines[i2])@) == Some((a, b, true))
                    || spec_line_edge(lines[i2]@) == Some((b, a, true)));
            assert(i2 == i);
            assert(false);
        }
    }
}

/// A line that names two endpoints and possibly one edge extends the content
/// relation by exactly those.
proof fn lemma_content_step(
    lines: Seq<Vec<u8>>,
    gm0: Map<ASN, ASView>,
    gm1: Map<ASN, ASView>,
    i: int,
    a1: ASN,
    a2: ASN,
)
    requires
        0 <= i < lines.len(),
        spec_line_endpoints(lines[i]@) == Some((a1, a2)),
        spec_lines_content(lines, i, gm0),
        forall|x: ASN| gm1.contains_key(x) <==> (gm0.contains_key(x) || x == a1 || x == a2),
        forall|x: ASN, y: ASN|
            gm1.contains_key(x) ==> ((#[trigger] gm1[x].customers.contains(y)) <==> ((
            gm0.contains_key(x) && gm0[x].customers.contains(y)) || (spec_line_edge(lines[i]@)
                == Some((a1, a2, false)) && x == a1 && y == a2))),
        forall|x: ASN, y: ASN|
            gm1.contains_key(x) ==> ((#[trigger] gm1[x].providers.contains(y)) <==> ((
            gm0.contains_key(x) && gm0[x].providers.contains(y)) || (spec_line_edge(lines[i]@)
                == Some((a1, a2, false)) && x == a2 && y == a1))),
        forall|x: ASN, y: ASN|
            gm1.contains_key(x) ==> ((#[trigger] gm1[x].peers.contains(y)) <==> ((
            gm0.contains_key(x) && gm0[x].peers.contains(y)) || (spec_line_edge(lines[i]@) == Some(
                (a1, a2, true),
            ) && ((x == a1 && y == a2) || (x == a2 && y == a1))))),
    ensures
        spec_lines_content(lines, i + 1, gm1),
{
    assert forall|x: ASN| #[trigger] gm1.contains_key(x) <==> spec_lines_name_node(
        lines,
        i + 1,
        x,
    ) by {
        if gm1.contains_key(x) {
            if gm0.contains_key(x) {
                let i2 = choose|i2: int|
                    0 <= i2 < i && {
                        let e = spec_line_endpoints((#[trigger] lines[i2])@);
                        e is Some && (e.unwrap().0 == x || e.unwrap().1 == x)
                    };
                assert(spec_lines_name_node(lines, i + 1, x));
            } else {
                assert(x == a1 || x == a2);
                assert(spec_lines_name_node(lines, i + 1, x)) by {
                    let e = spec_line_endpoints(lines[i]@);
                    assert(e is Some && (e.unwrap().0 == x || e.unwrap().1 == x));
                }
            }
        }
        if spec_lines_name_node(lines, i + 1, x) && !gm1.contains_key(x) {
            let i2 = choose|i2: int|
                0 <= i2 < i + 1 && {
                    let e = spec_line_endpoints((#[trigger] lines[i2])@);
                    e is Some && (e.unwrap().0 == x || e.unwrap().1 == x)
                };
            if i2 < i {
                assert(spec_lines_name_node(lines, i, x));
                assert(gm0.contains_key(x));
            }
            assert(false);
        }
    }
    assert forall|a: ASN, b: ASN|
        gm1.contains_key(a) implies ((#[trigger] gm1[a].customers.contains(b))
        <==> spec_lines_cp_edge(lines, i + 1, a, b)) by {
        if gm1[a].customers.contains(b) {
            if gm0.contains_key(a) && gm0[a].customers.contains(b) {
                let i2 = choose|i2: int|
                    0 <= i2 < i && spec_line_edge((#[trigger] lines[i2])@) == Some((a, b, false));
                assert(spec_lines_cp_edge(lines, i + 1, a, b));
            } else {
                assert(spec_line_edge(lines[i]@) == Some((a, b, false)));
                assert(spec_lines_cp_edge(lines, i + 1, a, b));
            }
        }
        if spec_lines_cp_edge(lines, i + 1, a, b) && !gm1[a].customers.contains(b) {
            let i2 = choose|i2: int|
                0 <= i2 < i + 1 && spec_line_edge((#[trigger] lines[i2])@) == Some((a, b, false));
            if i2 < i {
                assert(spec_lines_cp_edge(lines, i, a, b));
                assert(gm0.contains_key(a)) by {
                    if !gm0.contains_key(a) {
                        assert(!spec_lines_name_node(lines, i, a));
                        let e = spec_line_endpoints(lines[i2]@);
                        assert(e == Some((a, b)) || e is Some);
                        assert(spec_line_edge(lines[i2]@) is Some ==> spec_line_endpoints(
                            lines[i2]@,
                        ) is Some && spec_line_endpoints(lines[i2]@).unwrap().0 == a);
                        assert(spec_lines_name_node(lines, i, a));
                    }
                }
                assert(gm0[a].customers.contains(b));
            }
            assert(false);
        }
    }
    assert forall|a: ASN, b: ASN|
        gm1.contains_key(a) implies ((#[trigger] gm1[a].providers.contains(b))
        <==> spec_lines_cp_edge(lines, i + 1, b, a)) by {
        if gm1[a].providers.contains(b) {
            if gm0.contains_key(a) && gm0[a].providers.contains(b) {
                let i2 = choose|i2: int|
                    0 <= i2 < i && spec_line_edge((#[trigger] lines[i2])@) == Some((b, a, false));
                assert(spec_lines_cp_edge(lines, i + 1, b, a));
            } else {
                assert(spec_line_edge(lines[i]@) == Some((b, a, false)));
                assert(spec_lines_cp_edge(lines, i + 1, b, a));
            }
        }
        if spec_lines_cp_edge(lines, i + 1, b, a) && !gm1[a].providers.contains(b) {
            let i2 = choose|i2: int|
                0 <= i2 < i + 1 && spec_line_edge((#[trigger] lines[i2])@) == Some((b, a, false));
            if i2 < i {
                assert(spec_lines_cp_edge(lines, i, b, a));
                assert(gm0.contains_key(a)) by {
                    if !gm0.contains_key(a) {
                        assert(spec_line_endpoints(lines[i2]@).unwrap().1 == a);
                        assert(spec_lines_name_node(lines, i, a));
                    }
                }
                assert(gm0[a].providers.contains(b));
            }
            assert(false);
        }
    }
    assert forall|a: ASN, b: ASN|
        gm1.contains_key(a) implies ((#[trigger] gm1[a].peers.contains(b))
        <==> spec_lines_peer_edge(lines, i + 1, a, b)) by {
        if gm1[a].peers.contains(b) {
            if gm0.contains_key(a) && gm0[a].peers.contains(b) {
                let i2 = choose|i2: int|
                    0 <= i2 < i && (spec_line_edge((#[trigger] lines[i2])@) == Some((a, b, true))
                        || spec_line_edge(lines[i2]@) == Some((b, a, true)));
                assert(spec_lines_peer_edge(lines, i + 1, a, b));
            } else {
                assert(spec_line_edge(lines[i]@) == Some((a1, a2, true)) && ((a == a1 && b == a2)
                    || (a == a2 && b == a1)));
                assert(spec_lines_peer_edge(lines, i + 1, a, b));
            }
        }
        if spec_lines_peer_edge(lines, i + 1, a, b) && !gm1[a].peers.contains(b) {
            let i2 = choose|i2: int|
                0 <= i2 < i + 1 && (spec_line_edge((#[trigger] lines[i2])@) == Some((a, b, true))
                    || spec_line_edge(lines[i2]@) == Some((b, a, true)));
            if i2 < i {
                assert(spec_lines_peer_edge(lines, i, a, b));
                assert(gm0.contains_key(a)) by {
                    if !gm0.contains_key(a) {
                        assert(spec_lines_name_node(lines, i, a));
                    }
                }
                assert(gm0[a].peers.contains(b));
            }
            assert(false);
        }
    }
}

/// Flags and the propagation machinery aside, a graph invariant bundle for
/// construction from a relationship list.
pub open spec fn spec_caida_graph_ok(g: Map<ASN, ASView>) -> bool {
    spec_edges_symmetric(g) && spec_edges_closed(g)
}

/// Add a node with no edges when the ASN is new.
fn ensure_node(g: &mut ASGraph, asn: ASN)
    requires
        old(g).wf(),
        spec_caida_graph_ok(old(g).as_dict@),
    ensures
        final(g).wf(),
        spec_caida_graph_ok(final(g).as_dict@),
        forall|x: ASN|
            final(g).as_dict@.contains_key(x) <==> (old(g).as_dict@.contains_key(x) || x == asn),
        forall|x: ASN|
            old(g).as_dict@.contains_key(x) ==> final(g).as_dict@[x] == #[trigger] old(g).as_dict@[x],
        final(g).as_dict@.contains_key(asn),
        !old(g).as_dict@.contains_key(asn) ==> (final(g).as_dict@[asn].customers.len() == 0
            && final(g).as_dict@[asn].providers.len() == 0 && final(g).as_dict@[asn].peers.len()
            == 0 && !final(g).as_dict@[asn].tier_1 && !final(g).as_dict@[asn].ixp),
        final(g).propagation_ranks == old(g).propagation_ranks,
        final(g).asn_groups == old(g).asn_groups,
{
    if !g.as_dict.contains_key(&asn) {
        let ghost g0 = g.as_dict@;
        let node = AS::new(asn);
        g.insert(node);
        proof {
            lemma_ok_after_new(g0, g.as_dict@, asn);
        }
    }
}

/// Record one relationship line: a customer-provider edge (`a1` provider of
/// `a2`) or a peer edge, added in both directions, creating the endpoints as
/// needed.
fn add_edge(g: &mut ASGraph, a1: ASN, a2: ASN, peer: bool)
    requires
        old(g).wf(),
        spec_caida_graph_ok(old(g).as_dict@),
    ensures
        final(g).wf(),
        spec_caida_graph_ok(final(g).as_dict@),
        forall|x: ASN|
            final(g).as_dict@.contains_key(x) <==> (old(g).as_dict@.contains_key(x) || x == a1 || x
                == a2),
        forall|x: ASN|
            #[trigger] final(g).as_dict@.contains_key(x) ==> {
                let t1 = if old(g).as_dict@.contains_key(x) {
                    old(g).as_dict@[x].tier_1
                } else {
                    false
                };
                let ixp = if old(g).as_dict@.contains_key(x) {
                    old(g).as_dict@[x].ixp
                } else {
                    false
                };
                final(g).as_dict@[x].tier_1 == t1 && final(g).as_dict@[x].ixp == ixp
            },
        forall|x: ASN, y: ASN|
            final(g).as_dict@.contains_key(x) ==> ((#[trigger] final(g).as_dict@[x].customers.contains(y)) <==> ((old(g).as_dict@.contains_key(x) && old(g).as_dict@[x].customers.contains(y)) || (!peer && x == a1 && y == a2))),
        forall|x: ASN, y: ASN|
            final(g).as_dict@.contains_key(x) ==> ((#[trigger] final(g).as_dict@[x].providers.contains(y)) <==> ((old(g).as_dict@.contains_key(x) && old(g).as_dict@[x].providers.contains(y)) || (!peer && x == a2 && y == a1))),
        forall|x: ASN, y: ASN|
            final(g).as_dict@.contains_key(x) ==> ((#[trigger] final(g).as_dict@[x].peers.contains(
                y,
            )) <==> ((old(g).as_dict@.contains_key(x) && old(g).as_dict@[x].peers.contains(y)) || (
            peer && ((x == a1 && y == a2) || (x == a2 && y == a1))))),
        final(g).propagation_ranks == old(g).propagation_ranks,
        final(g).asn_groups == old(g).asn_groups,
{
    let ghost gpre = g.as_dict@;
    ensure_node(g, a1);
    ensure_node(g, a2);
    let ghost gbase = g.as_dict@;
    proof {
        assert forall|x: ASN, y: ASN|
            gbase.contains_key(x) implies ((#[trigger] gbase[x].customers.contains(y)) <==> (
        gpre.contains_key(x) && gpre[x].customers.contains(y))) by {
            if gpre.contains_key(x) {
                assert(gbase[x] == gpre[x]);
            } else {
                assert(gbase[x].customers.len() == 0);
            }
        }
        assert forall|x: ASN, y: ASN|
            gbase.contains_key(x) implies ((#[trigger] gbase[x].providers.contains(y)) <==> (
        gpre.contains_key(x) && gpre[x].providers.contains(y))) by {
            if gpre.contains_key(x) {
                assert(gbase[x] == gpre[x]);
            } else {
                assert(gbase[x].providers.len() == 0);
            }
        }
        assert forall|x: ASN, y: ASN|
            gbase.contains_key(x) implies ((#[trigger] gbase[x].peers.contains(y)) <==> (
        gpre.contains_key(x) && gpre[x].peers.contains(y))) by {
            if gpre.contains_key(x) {
                assert(gbase[x] == gpre[x]);
            } else {
                assert(gbase[x].peers.len() == 0);
            }
        }
    }
    edge_body(g, a1, a2, peer);
    proof {
        assert forall|x: ASN, y: ASN|
            g.as_dict@.contains_key(x) implies ((#[trigger] g.as_dict@[x].customers.contains(y))
            <==> ((gpre.contains_key(x) && gpre[x].customers.contains(y)) || (!peer && x == a1 && y
            == a2))) by {
            assert(gbase.contains_key(x));
        }
        assert forall|x: ASN, y: ASN|
            g.as_dict@.contains_key(x) implies ((#[trigger] g.as_dict@[x].providers.contains(y))
            <==> ((gpre.contains_key(x) && gpre[x].providers.contains(y)) || (!peer && x == a2 && y
            == a1))) by {
            assert(gbase.contains_key(x));
        }
        assert forall|x: ASN, y: ASN|
            g.as_dict@.contains_key(x) implies ((#[trigger] g.as_dict@[x].peers.contains(y)) <==> ((
            gpre.contains_key(x) && gpre[x].peers.contains(y)) || (peer && ((x == a1 && y == a2) || (
            x == a2 && y == a1))))) by {
            assert(gbase.contains_key(x));
        }
    }
}

/// The edge insertion itself, on a graph already holding both endpoints.
fn edge_body(g: &mut ASGraph, a1: ASN, a2: ASN, peer: bool)
    requires
        old(g).wf(),
        spec_caida_graph_ok(old(g).as_dict@),
        old(g).as_dict@.contains_key(a1),
        old(g).as_dict@.contains_key(a2),
    ensures
        final(g).wf(),
        spec_caida_graph_ok(final(g).as_dict@),
        forall|x: ASN| final(g).as_dict@.contains_key(x) <==> old(g).as_dict@.contains_key(x),
        forall|x: ASN|
            #[trigger] final(g).as_dict@.contains_key(x) ==> final(g).as_dict@[x].tier_1 == old(g).as_dict@[x].tier_1 && final(g).as_dict@[x].ixp == old(g).as_dict@[x].ixp,
        forall|x: ASN, y: ASN|
            final(g).as_dict@.contains_key(x) ==> ((#[trigger] final(g).as_dict@[x].customers.contains(y)) <==> (old(g).as_dict@[x].customers.contains(y) || (
            !peer && x == a1 && y == a2))),
        forall|x: ASN, y: ASN|
            final(g).as_dict@.contains_key(x) ==> ((#[trigger] final(g).as_dict@[x].providers.contains(y)) <==> (old(g).as_dict@[x].providers.contains(y) || (
            !peer && x == a2 && y == a1))),
        forall|x: ASN, y: ASN|
            final(g).as_dict@.contains_key(x) ==> ((#[trigger] final(g).as_dict@[x].peers.contains(
                y,
            )) <==> (old(g).as_dict@[x].peers.contains(y) || (peer && ((x == a1 && y == a2) || (x
                == a2 && y == a1))))),
        final(g).propagation_ranks == old(g).propagation_ranks,
        final(g).asn_groups == old(g).asn_groups,
{
    let ghost g0 = g.as_dict@;
    if peer {
        match g.get_mut(&a1) {
            Some(node) => {
                push_unique(&mut node.peers, a2);
            },
            None => {},
        }
        let ghost g1 = g.as_dict@;
        match g.get_mut(&a2) {
            Some(node) => {
                push_unique(&mut node.peers, a1);
            },
            None => {},
        }
        proof {
            lemma_ok_after_peer_edge(g0, g.as_dict@, a1, a2);
            assert forall|x: ASN, y: ASN|
                g.as_dict@.contains_key(x) implies ((#[trigger] g.as_dict@[x].peers.contains(y))
                <==> (g0[x].peers.contains(y) || ((x == a1 && y == a2) || (x == a2 && y == a1)))) by {
                if x != a1 && x != a2 {
                    assert(g.as_dict@[x] == g0[x]);
                }
            }
            assert forall|x: ASN, y: ASN|
                g.as_dict@.contains_key(x) implies ((#[trigger] g.as_dict@[x].customers.contains(
                y,
            )) <==> g0[x].customers.contains(y)) by {
                if x != a1 && x != a2 {
                    assert(g.as_dict@[x] == g0[x]);
                }
            }
            assert forall|x: ASN, y: ASN|
                g.as_dict@.contains_key(x) implies ((#[trigger] g.as_dict@[x].providers.contains(
                y,
            )) <==> g0[x].providers.contains(y)) by {
                if x != a1 && x != a2 {
                    assert(g.as_dict@[x] == g0[x]);
                }
            }
        }
    } else {
        match g.get_mut(&a1) {
            Some(node) => {
                push_unique(&mut node.customers, a2);
            },
            None => {},
        }
        let ghost g1 = g.as_dict@;
        match g.get_mut(&a2) {
            Some(node) => {
                push_unique(&mut node.providers, a1);
            },
            None => {},
        }
        proof {
            lemma_ok_after_cp_edge(g0, g.as_dict@, a1, a2);
            assert forall|x: ASN, y: ASN|
                g.as_dict@.contains_key(x) implies ((#[trigger] g.as_dict@[x].customers.contains(
                y,
            )) <==> (g0[x].customers.contains(y) || (x == a1 && y == a2))) by {
                if x != a1 && x != a2 {
                    assert(g.as_dict@[x] == g0[x]);
                }
            }
            assert forall|x: ASN, y: ASN|
                g.as_dict@.contains_key(x) implies ((#[trigger] g.as_dict@[x].providers.contains(
                y,
            )) <==> (g0[x].providers.contains(y) || (x == a2 && y == a1))) by {
                if x != a1 && x != a2 {
                    assert(g.as_dict@[x] == g0[x]);
                }
            }
            assert forall|x: ASN, y: ASN|
                g.as_dict@.contains_key(x) implies ((#[trigger] g.as_dict@[x].peers.contains(y))
                <==> g0[x].peers.contains(y)) by {
                if x != a1 && x != a2 {
                    assert(g.as_dict@[x] == g0[x]);
                }
            }
        }
    }
}

/// Fetches the CAIDA serial-2 relationship snapshot; the download, caching
/// and decompression are I/O and live with the caller, which consumes the
/// configuration held here.
#[derive(Debug, Clone)]
pub struct CAIDAASGraphCollector {
    pub days_ago: u32,
    pub cache_dir: String,
}

impl CAIDAASGraphCollector {
    pub fn new(days_ago: u32, cache_dir: String) -> (r: CAIDAASGraphCollector)
        ensures
            r.days_ago == days_ago,
            r.cache_dir@ == cache_dir@,
    {
        CAIDAASGraphCollector { days_ago, cache_dir }
    }
}

/// Turns a fetched relationship file into an AS graph; the caller supplies
/// the file's lines.
#[derive(Debug, Clone)]
pub struct CAIDAASGraphJSONConverter {
    pub file_path: String,
}

impl CAIDAASGraphJSONConverter {
    pub fn new(file_path: String) -> (r: CAIDAASGraphJSONConverter)
        ensures
            r.file_path@ == file_path@,
    {
        CAIDAASGraphJSONConverter { file_path }
    }

    /// Build the AS graph a relationship file describes: every data line
    /// adds one symmetric edge, the comment headers set the tier-1 and IXP
    /// flags, and the finished graph is checked for cycles, ranked, and
    /// annotated with provider cones and ASN groups.
    pub fn convert(&self, lines: &Vec<Vec<u8>>) -> (r: Result<ASGraph, CaidaError>)
        ensures
            match r {
                Ok(g) => {
                    &&& g.wf()
                    &&& spec_edges_symmetric(g.as_dict@)
                    &&& spec_edges_closed(g.as_dict@)
                    &&& forall|path: Seq<ASN>|
                        !crate::as_graph::spec_is_provider_cycle(g.as_dict@, path)
                    &&& forall|a: ASN|
                        #[trigger] g.as_dict@.contains_key(a) ==> g.as_dict@[a].propagation_rank
                            is Some
                },
                Err(e) => true,
            },
            r == Err::<ASGraph, CaidaError>(CaidaError::Parse) <==> exists|i: int|
                0 <= i < lines@.len() && spec_line_bad((#[trigger] lines@[i])@),
            match r {
                Ok(g) => spec_lines_content(lines@, lines@.len() as int, g.as_dict@),
                Err(_) => true,
            },
    {
        let mut g = ASGraph::new();
        let mut tier_1_asns: Vec<ASN> = Vec::new();
        let mut ixp_asns: Vec<ASN> = Vec::new();
        let clique_pat: Vec<u8> = byte_vec_clique();
        let ixp_pat: Vec<u8> = byte_vec_ixp();
        proof {
            assert(spec_lines_content(lines@, 0, g.as_dict@)) by {
                assert(forall|x: ASN| !(#[trigger] g.as_dict@.contains_key(x)));
                assert forall|x: ASN| !spec_lines_name_node(lines@, 0, x) by {
                    if spec_lines_name_node(lines@, 0, x) {
                        let i2 = choose|i2: int|
                            0 <= i2 < 0 && {
                                let e = spec_line_endpoints((#[trigger] lines@[i2])@);
                                e is Some && (e.unwrap().0 == x || e.unwrap().1 == x)
                            };
                    }
                }
            }
        }
        let mut i: usize = 0;
        while i < lines.len()
            invariant
                g.wf(),
                spec_caida_graph_ok(g.as_dict@),
                i <= lines@.len(),
                clique_pat@ =~= spec_clique_prefix(),
                ixp_pat@ =~= spec_ixp_prefix(),
                forall|i2: int| 0 <= i2 < i ==> !spec_line_bad((#[trigger] lines@[i2])@),
                spec_lines_content(lines@, i as int, g.as_dict@),
                forall|x: ASN|
                    #[trigger] g.as_dict@.contains_key(x) ==> !g.as_dict@[x].tier_1
                        && !g.as_dict@[x].ixp,
            decreases lines@.len() - i,
        {
            let line = &lines[i];
            if starts_with(line, &clique_pat) {
                proof {
                    assert(line@[0] == 0x23) by {
                        assert(line@.take(15)[0] == spec_clique_prefix()[0]);
                    }
                    assert(!spec_is_data_line(line@));
                    lemma_content_skip(lines@, g.as_dict@, i as int);
                }
                let mut more = parse_asn_list(line, clique_pat.len());
                tier_1_asns.append(&mut more);
            } else if starts_with(line, &ixp_pat) {
                proof {
                    assert(line@[0] == 0x23) by {
                        assert(line@.take(11)[0] == spec_ixp_prefix()[0]);
                    }
                    assert(!spec_is_data_line(line@));
                    lemma_content_skip(lines@, g.as_dict@, i as int);
                }
                let mut more = parse_asn_list(line, ixp_pat.len());
                ixp_asns.append(&mut more);
            } else if line.len() > 0 && line[0] == 0x23 {
                // Any other comment line.
                proof {
                    assert(!spec_is_data_line(line@));
                    lemma_content_skip(lines@, g.as_dict@, i as int);
                }
            } else if line.len() == 0 {
                proof {
                    assert(!spec_is_data_line(line@));
                    lemma_content_skip(lines@, g.as_dict@, i as int);
                }
            } else {
                // Data line: ASN1|ASN2|REL.
                let p1 = match find_byte(line, 0, 0x7c) {
                    Some(p) => p,
                    None => {
                        proof {
                            lemma_pipe_at(line@, 0, line@.len() as int);
                            assert(!spec_line_bad(line@));
                            assert(spec_line_endpoints(line@) is None);
                            lemma_content_skip(lines@, g.as_dict@, i as int);
                        }
                        i = i + 1;
                        continue ;
                    },
                };
                proof {
                    lemma_pipe_at(line@, 0, p1 as int);
                }
                let p2 = match find_byte(line, p1 + 1, 0x7c) {
                    Some(p) => p,
                    None => {
                        proof {
                            lemma_pipe_at(line@, p1 as int + 1, line@.len() as int);
                            assert(!spec_line_bad(line@));
                            assert(spec_line_endpoints(line@) is None);
                            lemma_content_skip(lines@, g.as_dict@, i as int);
                        }
                        i = i + 1;
                        continue ;
                    },
                };
                proof {
                    lemma_pipe_at(line@, p1 as int + 1, p2 as int);
                }
                let p3 = match find_byte(line, p2 + 1, 0x7c) {
                    Some(p) => {
                        proof {
                            lemma_pipe_at(line@, p2 as int + 1, p as int);
                        }
                        p
                    },
                    None => {
                        proof {
                            lemma_pipe_at(line@, p2 as int + 1, line@.len() as int);
                        }
                        line.len()
                    },
                };
                let asn1 = match parse_u32(line, 0, p1) {
                    Some(v) => v,
                    None => {
                        proof {
                            assert(spec_line_bad(line@));
                        }
                        return Err(CaidaError::Parse);
                    },
                };
                let asn2 = match parse_u32(line, p1 + 1, p2) {
                    Some(v) => v,
                    None => {
                        proof {
                            assert(spec_line_bad(line@));
                        }
                        return Err(CaidaError::Parse);
                    },
                };
                proof {
                    assert(!spec_line_bad(line@));
                    assert(spec_line_endpoints(line@) == Some((asn1, asn2)));
                }
                let ghost gm0 = g.as_dict@;
                // Both endpoints exist whatever the relationship code says.
                ensure_node(&mut g, asn1);
                ensure_node(&mut g, asn2);
                // REL is -1 for provider-to-customer, 0 for peer; any other
                // code adds no edge.
                let is_minus_one = p3 - p2 == 3 && line[p2 + 1] == 0x2d && line[p2 + 2] == 0x31;
                let is_zero = p3 - p2 == 2 && line[p2 + 1] == 0x30;
                proof {
                    if is_minus_one {
                        assert(spec_line_edge(line@) == Some((asn1, asn2, false)));
                    } else if is_zero {
                        assert(spec_line_edge(line@) == Some((asn1, asn2, true)));
                    } else {
                        assert(spec_line_edge(line@) is None);
                    }
                }
                let ghost gbase = g.as_dict@;
                if is_minus_one {
                    add_edge(&mut g, asn1, asn2, false);
                } else if is_zero {
                    add_edge(&mut g, asn1, asn2, true);
                }
                proof {
                    assert forall|x: ASN, y: ASN|
                        gbase.contains_key(x) implies ((#[trigger] gbase[x].customers.contains(y))
                        <==> (gm0.contains_key(x) && gm0[x].customers.contains(y))) by {
                        if gm0.contains_key(x) {
                            assert(gbase[x] == gm0[x]);
                        } else {
                            assert(gbase[x].customers.len() == 0);
                        }
                    }
                    assert forall|x: ASN, y: ASN|
                        gbase.contains_key(x) implies ((#[trigger] gbase[x].providers.contains(y))
                        <==> (gm0.contains_key(x) && gm0[x].providers.contains(y))) by {
                        if gm0.contains_key(x) {
                            assert(gbase[x] == gm0[x]);
                        } else {
                            assert(gbase[x].providers.len() == 0);
                        }
                    }
                    assert forall|x: ASN, y: ASN|
                        gbase.contains_key(x) implies ((#[trigger] gbase[x].peers.contains(y))
                        <==> (gm0.contains_key(x) && gm0[x].peers.contains(y))) by {
                        if gm0.contains_key(x) {
                            assert(gbase[x] == gm0[x]);
                        } else {
                            assert(gbase[x].peers.len() == 0);
                        }
                    }
                    lemma_content_step(lines@, gm0, g.as_dict@, i as int, asn1, asn2);
                }
            }
            i = i + 1;
        }
        // Set the tier-1 and IXP flags.
        let ghost g_parsed = g.as_dict@;
        set_flags(&mut g, &tier_1_asns, true);
        proof {
            lemma_content_same_edges(lines@, g_parsed, g.as_dict@);
        }
        let ghost g_flag1 = g.as_dict@;
        set_flags(&mut g, &ixp_asns, false);
        proof {
            lemma_content_same_edges(lines@, g_flag1, g.as_dict@);
        }
        // Topology analysis.
        proof {
            assert(!(exists|i2: int|
                0 <= i2 < lines@.len() && spec_line_bad((#[trigger] lines@[i2])@)));
        }
        match g.check_for_cycles() {
            Ok(_) => {},
            Err(_) => {
                return Err(CaidaError::Cycle);
            },
        }
        let ghost g_checked = g.as_dict@;
        g.assign_as_propagation_rank();
        proof {
            lemma_caida_preds_transfer(g_checked, g.as_dict@);
            lemma_content_same_edges(lines@, g_checked, g.as_dict@);
            assert forall|a: ASN| #[trigger] g.as_dict@.contains_key(a) implies g.as_dict@[
            a].propagation_rank is Some by {
                if g.as_dict@[a].propagation_rank is None {
                    let path = choose|path: Seq<ASN>|
                        crate::as_graph::spec_is_provider_cycle(g_checked, path);
                }
            }
        }
        let ghost g_ranked = g.as_dict@;
        g.add_provider_cone_asns();
        proof {
            lemma_caida_preds_transfer(g_ranked, g.as_dict@);
            lemma_content_same_edges(lines@, g_ranked, g.as_dict@);
            assert forall|a: ASN| #[trigger] g.as_dict@.contains_key(a) implies g.as_dict@[
            a].propagation_rank is Some by {
                assert(g_ranked.contains_key(a));
                assert(g.as_dict@[a].propagation_rank == g_ranked[a].propagation_rank);
            }
        }
        g.add_asn_groups();
        Ok(g)
    }
}

/// The content relation carries over to any graph with the same nodes and
/// the same edges.
proof fn lemma_content_same_edges(lines: Seq<Vec<u8>>, g0: Map<ASN, ASView>, g1: Map<ASN, ASView>)
    requires
        spec_lines_content(lines, lines.len() as int, g0),
        forall|a: ASN| g1.contains_key(a) <==> g0.contains_key(a),
        forall|a: ASN|
            #[trigger] g1.contains_key(a) ==> g1[a].customers == g0[a].customers && g1[a].providers
                == g0[a].providers && g1[a].peers == g0[a].peers,
    ensures
        spec_lines_content(lines, lines.len() as int, g1),
{
}

/// The construction invariants and acyclicity carry over to any graph with
/// the same nodes and the same edges.
proof fn lemma_caida_preds_transfer(g0: Map<ASN, ASView>, g1: Map<ASN, ASView>)
    requires
        spec_caida_graph_ok(g0),
        forall|path: Seq<ASN>| !crate::as_graph::spec_is_provider_cycle(g0, path),
        forall|a: ASN| g1.contains_key(a) <==> g0.contains_key(a),
        forall|a: ASN|
            #[trigger] g1.contains_key(a) ==> g1[a].customers == g0[a].customers
                && g1[a].providers == g0[a].providers && g1[a].peers == g0[a].peers,
    ensures
        spec_caida_graph_ok(g1),
        forall|path: Seq<ASN>| !crate::as_graph::spec_is_provider_cycle(g1, path),
{
    assert forall|a: ASN, b: ASN|
        g1.contains_key(a) && g1.contains_key(b) implies ((#[trigger] g1[a].customers.contains(b))
        <==> g1[b].providers.contains(a)) by {
        assert(g0.contains_key(a) && g0.contains_key(b));
        assert(g0[a].customers.contains(b) <==> g0[b].providers.contains(a));
    }
    assert forall|a: ASN, b: ASN|
        g1.contains_key(a) && g1.contains_key(b) implies ((#[trigger] g1[a].peers.contains(b))
        <==> g1[b].peers.contains(a)) by {
        assert(g0.contains_key(a) && g0.contains_key(b));
        assert(g0[a].peers.contains(b) <==> g0[b].peers.contains(a));
    }
    assert forall|a: ASN, b: ASN|
        g1.contains_key(a) && #[trigger] g1[a].customers.contains(b) implies g1.contains_key(
        b,
    ) by {
        assert(g0.contains_key(a) && g0[a].customers.contains(b));
    }
    assert forall|a: ASN, b: ASN|
        g1.contains_key(a) && #[trigger] g1[a].providers.contains(b) implies g1.contains_key(
        b,
    ) by {
        assert(g0.contains_key(a) && g0[a].providers.contains(b));
    }
    assert forall|a: ASN, b: ASN|
        g1.contains_key(a) && #[trigger] g1[a].peers.contains(b) implies g1.contains_key(b) by {
        assert(g0.contains_key(a) && g0[a].peers.contains(b));
    }
    assert forall|path: Seq<ASN>| !crate::as_graph::spec_is_provider_cycle(g1, path) by {
        if crate::as_graph::spec_is_provider_cycle(g1, path) {
            assert forall|i: int| 0 <= i < path.len() - 1 implies g0.contains_key(
                #[trigger] path[i],
            ) && g0[path[i]].providers.contains(path[i + 1]) by {
                assert(g1.contains_key(path[i]));
                assert(g1[path[i]].providers.contains(path[i + 1]));
            }
            assert(crate::as_graph::spec_is_provider_cycle(g0, path));
        }
    }
}

/// Mark the listed ASNs as tier-1 (or, with `tier` false, as IXPs); unknown
/// ASNs are skipped.
fn set_flags(g: &mut ASGraph, asns: &Vec<ASN>, tier: bool)
    requires
        old(g).wf(),
        spec_caida_graph_ok(old(g).as_dict@),
    ensures
        final(g).wf(),
        spec_caida_graph_ok(final(g).as_dict@),
        forall|x: ASN|
            final(g).as_dict@.contains_key(x) <==> old(g).as_dict@.contains_key(x),
        forall|x: ASN|
            #[trigger] final(g).as_dict@.contains_key(x) ==> final(g).as_dict@[x].customers == old(
                g,
            ).as_dict@[x].customers && final(g).as_dict@[x].providers == old(
                g,
            ).as_dict@[x].providers && final(g).as_dict@[x].peers == old(g).as_dict@[x].peers,
{
    let mut i: usize = 0;
    while i < asns.len()
        invariant
            g.wf(),
            spec_caida_graph_ok(g.as_dict@),
            i <= asns@.len(),
            forall|x: ASN| g.as_dict@.contains_key(x) <==> old(g).as_dict@.contains_key(x),
            forall|x: ASN|
                #[trigger] g.as_dict@.contains_key(x) ==> g.as_dict@[x].customers == old(
                    g,
                ).as_dict@[x].customers && g.as_dict@[x].providers == old(g).as_dict@[x].providers
                    && g.as_dict@[x].peers == old(g).as_dict@[x].peers,
        decreases asns@.len() - i,
    {
        let asn = asns[i];
        let ghost gpre = g.as_dict@;
        match g.get_mut(&asn) {
            Some(node) => {
                if tier {
                    node.tier_1 = true;
                } else {
                    node.ixp = true;
                }
            },
            None => {},
        }
        proof {
            if gpre.contains_key(asn) {
                lemma_ok_after_flags(gpre, g.as_dict@, asn);
            }
        }
        i = i + 1;
    }
}

/// The comment header that lists the tier-1 clique, as a byte string.
pub open spec fn spec_clique_prefix() -> Seq<u8> {
    seq![0x23u8, 0x20, 0x69, 0x6e, 0x70, 0x75, 0x74, 0x20, 0x63, 0x6c, 0x69, 0x71, 0x75, 0x65, 0x3a]
}

/// The comment header that lists the IXP ASes, as a byte string.
pub open spec fn spec_ixp_prefix() -> Seq<u8> {
    seq![0x23u8, 0x20, 0x49, 0x58, 0x50, 0x20, 0x41, 0x53, 0x65, 0x73, 0x3a]
}

/// A data line: non-empty and not a comment.
pub open spec fn spec_is_data_line(l: Seq<u8>) -> bool {
    l.len() > 0 && l[0] != 0x23
}

/// The first pipe at or after an index, or the line's length.
pub open spec fn spec_pipe(l: Seq<u8>, from: int) -> int
    recommends
        0 <= from,
    decreases l.len() - from,
{
    if from >= l.len() {
        l.len() as int
    } else if l[from] == 0x7c {
        from
    } else {
        spec_pipe(l, from + 1)
    }
}

/// A byte range holds a well-formed ASN field: digits only, fitting u32.
pub open spec fn spec_field_ok(l: Seq<u8>, a: int, b: int) -> bool {
    spec_all_digits(l.subrange(a, b)) && spec_digits_value(l.subrange(a, b)) <= u32::MAX
}

/// A data line with two pipes whose first or second field is not a
/// well-formed ASN: the one condition under which conversion fails to parse.
pub open spec fn spec_line_bad(l: Seq<u8>) -> bool {
    spec_is_data_line(l) && {
        let p1 = spec_pipe(l, 0);
        if p1 >= l.len() {
            false
        } else {
            let p2 = spec_pipe(l, p1 + 1);
            if p2 >= l.len() {
                false
            } else {
                !spec_field_ok(l, 0, p1) || !spec_field_ok(l, p1 + 1, p2)
            }
        }
    }
}

/// The two ASN endpoints a well-formed data line names, or None when the
/// line is not a data line, lacks its two pipes, or fails to parse.
pub open spec fn spec_line_endpoints(l: Seq<u8>) -> Option<(ASN, ASN)> {
    if !spec_is_data_line(l) {
        None
    } else {
        let p1 = spec_pipe(l, 0);
        if p1 >= l.len() {
            None
        } else {
            let p2 = spec_pipe(l, p1 + 1);
            if p2 >= l.len() {
                None
            } else if !spec_field_ok(l, 0, p1) || !spec_field_ok(l, p1 + 1, p2) {
                None
            } else {
                Some(
                    (
                        spec_digits_value(l.subrange(0, p1)) as ASN,
                        spec_digits_value(l.subrange(p1 + 1, p2)) as ASN,
                    ),
                )
            }
        }
    }
}

/// The edge a data line adds: provider-to-customer for code -1, peer for
/// code 0, none otherwise.
pub open spec fn spec_line_edge(l: Seq<u8>) -> Option<(ASN, ASN, bool)> {
    match spec_line_endpoints(l) {
        None => None,
        Some(e) => {
            let p1 = spec_pipe(l, 0);
            let p2 = spec_pipe(l, p1 + 1);
            let p3 = spec_pipe(l, p2 + 1);
            if p3 - p2 == 3 && l[p2 + 1] == 0x2d && l[p2 + 2] == 0x31 {
                Some((e.0, e.1, false))
            } else if p3 - p2 == 2 && l[p2 + 1] == 0x30 {
                Some((e.0, e.1, true))
            } else {
                None
            }
        },
    }
}

/// Some line among the first `upto` names this ASN as an endpoint.
pub open spec fn spec_lines_name_node(lines: Seq<Vec<u8>>, upto: int, x: ASN) -> bool {
    exists|i: int|
        0 <= i < upto && {
            let e = spec_line_endpoints((#[trigger] lines[i])@);
            e is Some && (e.unwrap().0 == x || e.unwrap().1 == x)
        }
}

/// Some line among the first `upto` makes `a` a provider of `b`.
pub open spec fn spec_lines_cp_edge(lines: Seq<Vec<u8>>, upto: int, a: ASN, b: ASN) -> bool {
    exists|i: int|
        0 <= i < upto && spec_line_edge((#[trigger] lines[i])@) == Some((a, b, false))
}

/// Some line among the first `upto` peers `a` and `b`, in either order.
pub open spec fn spec_lines_peer_edge(lines: Seq<Vec<u8>>, upto: int, a: ASN, b: ASN) -> bool {
    exists|i: int|
        0 <= i < upto && (spec_line_edge((#[trigger] lines[i])@) == Some((a, b, true))
            || spec_line_edge(lines[i]@) == Some((b, a, true)))
}

/// The first-occurrence characterization pins the pipe position.
proof fn lemma_pipe_at(l: Seq<u8>, from: int, at: int)
    requires
        0 <= from <= at <= l.len(),
        at < l.len() ==> l[at] == 0x7c,
        at == l.len() ==> forall|j: int| from <= j < l.len() ==> l[j] != 0x7c,
        forall|j: int| from <= j < at ==> l[j] != 0x7c,
    ensures
        spec_pipe(l, from) == at,
    decreases at - from,
{
    if from < at {
        lemma_pipe_at(l, from + 1, at);
    }
}

/// The comment header that lists the tier-1 clique.
fn byte_vec_clique() -> (r: Vec<u8>)
    ensures
        r@ =~= spec_clique_prefix(),
        r@.len() == 15,
{
    let mut r: Vec<u8> = Vec::new();
    r.push(0x23);  // #
    r.push(0x20);
    r.push(0x69);  // i
    r.push(0x6e);  // n
    r.push(0x70);  // p
    r.push(0x75);  // u
    r.push(0x74);  // t
    r.push(0x20);
    r.push(0x63);  // c
    r.push(0x6c);  // l
    r.push(0x69);  // i
    r.push(0x71);  // q
    r.push(0x75);  // u
    r.push(0x65);  // e
    r.push(0x3a);  // :
    r
}

/// The comment header that lists the IXP ASes.
fn byte_vec_ixp() -> (r: Vec<u8>)
    ensures
        r@ =~= spec_ixp_prefix(),
        r@.len() == 11,
{
    let mut r: Vec<u8> = Vec::new();
    r.push(0x23);  // #
    r.push(0x20);
    r.push(0x49);  // I
    r.push(0x58);  // X
    r.push(0x50);  // P
    r.push(0x20);
    r.push(0x41);  // A
    r.push(0x53);  // S
    r.push(0x65);  // e
    r.push(0x73);  // s
    r.push(0x3a);  // :
    r
}

/// Builds an AS graph from the latest CAIDA snapshot; the fetch itself is
/// the caller's I/O, configured by this record.
#[derive(Debug, Clone)]
pub struct CAIDAASGraphGenerator {
    pub days_ago: u32,
    pub cache_dir: String,
}

impl CAIDAASGraphGenerator {
    pub fn new() -> (r: CAIDAASGraphGenerator)
        ensures
            r.days_ago == 10,
    {
        CAIDAASGraphGenerator { days_ago: 10, cache_dir: default_cache_dir() }
    }

    pub fn with_days_ago(self, days: u32) -> (r: CAIDAASGraphGenerator)
        ensures
            r.days_ago == days,
            r.cache_dir == self.cache_dir,
    {
        CAIDAASGraphGenerator { days_ago: days, ..self }
    }

    pub fn with_cache_dir(self, dir: String) -> (r: CAIDAASGraphGenerator)
        ensures
            r.days_ago == self.days_ago,
            r.cache_dir@ == dir@,
    {
        CAIDAASGraphGenerator { cache_dir: dir, ..self }
    }
}

/// The default cache directory name.
fn default_cache_dir() -> String {
    ".bgp_simulator_cache".to_string()
}

} // verus!
