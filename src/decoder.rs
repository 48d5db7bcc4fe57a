//! Decoding of BGP-4 messages (RFC 4271) from octets.
//!
//! Each decoder comes with a spec function that states, octet by octet,
//! what the wire format means and which error each malformation gives. The
//! header is read first; its length and type then decide, before any more
//! octets are needed, whether the message can be decoded at all.

use vstd::prelude::*;
use vstd::slice::slice_subrange;
use crate::message::{
    AggregatorAttribute, AsPathAttribute, AsPathSegment, AsPathSegmentView, BgpMessage, BgpMessageView,
    BgpNotificationMessage, BgpNotificationMessageView, BgpOpenMessage, BgpOpenMessageView, BgpOriginCode,
    BgpPathAttribute, BgpPathAttributeFlags, BgpUpdateMessage, BgpUpdateMessageView, CapabilityParameter,
    DecodeError, DecodeErrorView, Ipv4Prefix, LocalPrefAttribute, MultiExitDiscAttribute,
    MultiprotocolExtensionsCapability, NextHopAttribute, OptionalParameter, OriginAttribute, PathAttribute,
    PathAttributeView, attributes_view, origin_of, parameters_view, segments_view,
};

verus! {

/// The big-endian integer of the two octets at `i`.
pub open spec fn be16(s: Seq<u8>, i: int) -> u16 {
    (s[i] as int * 256 + s[i + 1] as int) as u16
}

/// The big-endian integer of the four octets at `i`.
pub open spec fn be32(s: Seq<u8>, i: int) -> u32 {
    (s[i] as int * 16777216 + s[i + 1] as int * 65536 + s[i + 2] as int * 256 + s[i + 3] as int) as u32
}

fn read_u16(s: &[u8], i: usize) -> (r: u16)
    requires
        i + 2 <= s@.len(),
    ensures
        r == be16(s@, i as int),
{
    (s[i] as u16) * 256 + s[i + 1] as u16
}

fn read_u32(s: &[u8], i: usize) -> (r: u32)
    requires
        i + 4 <= s@.len(),
    ensures
        r == be32(s@, i as int),
{
    (s[i] as u32) * 16777216 + (s[i + 1] as u32) * 65536 + (s[i + 2] as u32) * 256 + s[i + 3] as u32
}

/// A list result with `x` put in front.
pub open spec fn cons_ok<A>(x: A, r: Result<Seq<A>, DecodeErrorView>) -> Result<Seq<A>, DecodeErrorView> {
    match r {
        Ok(rest) => Ok(seq![x] + rest),
        Err(e) => Err(e),
    }
}

/// A list result with `acc` put in front.
pub open spec fn append_ok<A>(acc: Seq<A>, r: Result<Seq<A>, DecodeErrorView>) -> Result<Seq<A>, DecodeErrorView> {
    match r {
        Ok(rest) => Ok(acc + rest),
        Err(e) => Err(e),
    }
}

proof fn lemma_append_cons<A>(acc: Seq<A>, x: A, r: Result<Seq<A>, DecodeErrorView>)
    ensures
        append_ok(acc, cons_ok(x, r)) == append_ok(acc.push(x), r),
{
    match r {
        Ok(rest) => {
            assert(acc + (seq![x] + rest) =~= acc.push(x) + rest);
        },
        Err(e) => {},
    }
}

proof fn lemma_append_empty<A>(r: Result<Seq<A>, DecodeErrorView>)
    ensures
        append_ok(Seq::<A>::empty(), r) == r,
{
    match r {
        Ok(rest) => {
            assert(Seq::<A>::empty() + rest =~= rest);
        },
        Err(e) => {},
    }
}

// ---------------------------------------------------------------- prefixes

/// The number of octets that hold a prefix of `bits` bits.
pub open spec fn prefix_octets(bits: u8) -> int {
    (bits as int + 7) / 8
}

/// Octet `j` of a prefix stored in the first `n` octets of `s`, padded with zeros.
pub open spec fn padded_octet(s: Seq<u8>, n: int, j: int) -> int {
    if j < n { s[j] as int } else { 0 }
}

/// The prefix stored in the first `n` octets of `s`, padded to four octets.
pub open spec fn padded_prefix(s: Seq<u8>, n: int) -> u32 {
    (padded_octet(s, n, 0) * 16777216 + padded_octet(s, n, 1) * 65536 + padded_octet(s, n, 2) * 256
        + padded_octet(s, n, 3)) as u32
}

/// A list of prefixes, each a length in bits and the octets that hold it.
pub open spec fn prefixes_spec(s: Seq<u8>) -> Result<Seq<Ipv4Prefix>, DecodeErrorView>
    decreases s.len(),
{
    if s.len() == 0 {
        Ok(Seq::empty())
    } else if s[0] > 32 || 1 + prefix_octets(s[0]) > s.len() {
        Err(DecodeErrorView::InvalidNetworkField)
    } else {
        let n = 1 + prefix_octets(s[0]);
        cons_ok(
            Ipv4Prefix { prefix: padded_prefix(s.skip(1), n - 1), length: s[0] },
            prefixes_spec(s.skip(n)),
        )
    }
}

/// Decodes the prefixes of the withdrawn routes or the NLRI of an UPDATE.
pub fn parse_bgp_prefixes(s: &[u8]) -> (r: Result<Vec<Ipv4Prefix>, DecodeError>)
    ensures
        match r {
            Ok(v) => prefixes_spec(s@) == Ok::<Seq<Ipv4Prefix>, DecodeErrorView>(v@),
            Err(e) => prefixes_spec(s@) == Err::<Seq<Ipv4Prefix>, DecodeErrorView>(e@),
        },
{
    let mut out: Vec<Ipv4Prefix> = Vec::new();
    let mut pos: usize = 0;
    proof {
        assert(s@.skip(0) =~= s@);
        lemma_append_empty(prefixes_spec(s@));
    }
    while pos < s.len()
        invariant
            pos <= s@.len(),
            prefixes_spec(s@) == append_ok(out@, prefixes_spec(s@.skip(pos as int))),
        decreases s@.len() - pos,
    {
        let ghost t = s@.skip(pos as int);
        let bits = s[pos];
        if bits > 32 || ((bits as usize + 7) / 8) + 1 > s.len() - pos {
            return Err(DecodeError::InvalidNetworkField);
        }
        let n: usize = (bits as usize + 7) / 8;
        let o0: u32 = if n > 0 { s[pos + 1] as u32 } else { 0 };
        let o1: u32 = if n > 1 { s[pos + 2] as u32 } else { 0 };
        let o2: u32 = if n > 2 { s[pos + 3] as u32 } else { 0 };
        let o3: u32 = if n > 3 { s[pos + 4] as u32 } else { 0 };
        let p = Ipv4Prefix { prefix: o0 * 16777216 + o1 * 65536 + o2 * 256 + o3, length: bits };
        proof {
            assert(p == Ipv4Prefix { prefix: padded_prefix(t.skip(1), n as int), length: t[0] });
            assert(t.skip(n + 1) =~= s@.skip(pos + n + 1));
            lemma_append_cons(out@, p, prefixes_spec(t.skip(n + 1)));
        }
        out.push(p);
        pos = pos + n + 1;
    }
    proof {
        assert(s@.skip(pos as int) =~= Seq::<u8>::empty());
        assert(out@ + Seq::<Ipv4Prefix>::empty() =~= out@);
    }
    Ok(out)
}

// ---------------------------------------------------------- path attributes

/// The AS numbers of a segment: `count` big-endian pairs of octets at `i`.
pub open spec fn as_numbers(s: Seq<u8>, i: int, count: int) -> Seq<u16> {
    Seq::new(count as nat, |j: int| be16(s, i + 2 * j))
}

/// The segments of an AS_PATH value: a type (1, set; 2, sequence), a count,
/// and that many two-octet AS numbers.
pub open spec fn segments_spec(s: Seq<u8>) -> Result<Seq<AsPathSegmentView>, DecodeErrorView>
    decreases s.len(),
{
    if s.len() == 0 {
        Ok(Seq::empty())
    } else if s.len() < 2 || (s[0] != 1 && s[0] != 2) || 2 + 2 * s[1] > s.len() {
        Err(DecodeErrorView::MalformedAsPath)
    } else {
        let asns = as_numbers(s, 2, s[1] as int);
        let seg = if s[0] == 1 { AsPathSegmentView::AsSet(asns) } else { AsPathSegmentView::AsSequence(asns) };
        cons_ok(seg, segments_spec(s.skip(2 + 2 * s[1])))
    }
}

/// Decodes the segments of an AS_PATH attribute value.
pub fn parse_as_path_segments(s: &[u8]) -> (r: Result<Vec<AsPathSegment>, DecodeError>)
    ensures
        match r {
            Ok(v) => segments_spec(s@) == Ok::<Seq<AsPathSegmentView>, DecodeErrorView>(segments_view(v@)),
            Err(e) => segments_spec(s@) == Err::<Seq<AsPathSegmentView>, DecodeErrorView>(e@),
        },
{
    let mut out: Vec<AsPathSegment> = Vec::new();
    let mut pos: usize = 0;
    proof {
        assert(s@.skip(0) =~= s@);
        assert(segments_view(out@) =~= Seq::<AsPathSegmentView>::empty());
        lemma_append_empty(segments_spec(s@));
    }
    while pos < s.len()
        invariant
            pos <= s@.len(),
            segments_spec(s@) == append_ok(segments_view(out@), segments_spec(s@.skip(pos as int))),
        decreases s@.len() - pos,
    {
        let ghost t = s@.skip(pos as int);
        if s.len() - pos < 2 {
            return Err(DecodeError::MalformedAsPath);
        }
        let seg_type = s[pos];
        let count = s[pos + 1] as usize;
        if (seg_type != 1 && seg_type != 2) || 2 + 2 * count > s.len() - pos {
            return Err(DecodeError::MalformedAsPath);
        }
        let mut asns: Vec<u16> = Vec::new();
        let mut j: usize = 0;
        while j < count
            invariant
                j <= count,
                count == t[1],
                pos + 2 + 2 * count <= s.len(),
                t == s@.skip(pos as int),
                asns@ =~= as_numbers(t, 2, j as int),
            decreases count - j,
        {
            let a = read_u16(s, pos + 2 + 2 * j);
            asns.push(a);
            j = j + 1;
        }
        let seg = if seg_type == 1 { AsPathSegment::AsSet(asns) } else { AsPathSegment::AsSequence(asns) };
        proof {
            assert(t.skip(2 + 2 * count) =~= s@.skip(pos + 2 + 2 * count));
            lemma_append_cons(segments_view(out@), seg@, segments_spec(t.skip(2 + 2 * count)));
            assert(segments_view(out@.push(seg)) =~= segments_view(out@).push(seg@));
        }
        out.push(seg);
        pos = pos + 2 + 2 * count;
    }
    proof {
        assert(s@.skip(pos as int) =~= Seq::<u8>::empty());
        assert(segments_view(out@) + Seq::<AsPathSegmentView>::empty() =~= segments_view(out@));
    }
    Ok(out)
}

/// The flags of a path attribute, from the four high bits of its flags octet.
pub open spec fn flags_of(f: u8) -> BgpPathAttributeFlags {
    BgpPathAttributeFlags {
        optional: f & 0x80 != 0,
        transitive: f & 0x40 != 0,
        partial: f & 0x20 != 0,
        extended_length: f & 0x10 != 0,
    }
}

/// Reads the flags from the four high bits of a path attribute's flags octet.
pub fn parse_bgp_path_attribute_flags(f: u8) -> (r: BgpPathAttributeFlags)
    ensures
        r == flags_of(f),
{
    BgpPathAttributeFlags {
        optional: f & 0x80 != 0,
        transitive: f & 0x40 != 0,
        partial: f & 0x20 != 0,
        extended_length: f & 0x10 != 0,
    }
}

/// The flags that a recognised attribute must carry, the extended-length bit
/// aside: ORIGIN, AS_PATH, NEXT_HOP, LOCAL_PREF and ATOMIC_AGGREGATE are
/// well-known transitive, MULTI_EXIT_DISC is optional non-transitive, and
/// AGGREGATOR is optional transitive, which may be partial.
pub open spec fn flags_match(code: u8, f: u8) -> bool {
    if code == 7 {
        f & 0xC0 == 0xC0
    } else if code == 4 {
        f & 0xE0 == 0x80
    } else {
        f & 0xE0 == 0x40
    }
}

/// The length a recognised attribute's value must have; AS_PATH has any.
pub open spec fn length_matches(code: u8, len: int) -> bool {
    if code == 1 {
        len == 1
    } else if code == 2 {
        true
    } else if code == 6 {
        len == 0
    } else if code == 7 {
        len == 6
    } else {
        len == 4
    }
}

/// The meaning of the value `v` of an attribute with flags octet `f` and
/// type code `code`.
pub open spec fn attribute_value_spec(f: u8, code: u8, v: Seq<u8>) -> Result<PathAttributeView, DecodeErrorView> {
    if f & 0x0F != 0 {
        Err(DecodeErrorView::AttributeFlagsError(code, f))
    } else if 1 <= code <= 7 {
        if !flags_match(code, f) {
            Err(DecodeErrorView::AttributeFlagsError(code, f))
        } else if !length_matches(code, v.len() as int) {
            Err(DecodeErrorView::AttributeLengthError(code, v.len() as u16))
        } else if code == 1 {
            match origin_of(v[0]) {
                Some(o) => Ok(PathAttributeView::Origin(OriginAttribute { origin_code: o })),
                None => Err(DecodeErrorView::InvalidOriginAttribute(v[0])),
            }
        } else if code == 2 {
            match segments_spec(v) {
                Ok(segs) => Ok(PathAttributeView::AsPath(segs)),
                Err(e) => Err(e),
            }
        } else if code == 3 {
            Ok(PathAttributeView::NextHop(NextHopAttribute { next_hop: be32(v, 0) }))
        } else if code == 4 {
            Ok(PathAttributeView::MultiExitDisc(MultiExitDiscAttribute { metric: be32(v, 0) }))
        } else if code == 5 {
            Ok(PathAttributeView::LocalPref(LocalPrefAttribute { preference: be32(v, 0) }))
        } else if code == 6 {
            Ok(PathAttributeView::AtomicAggregate)
        } else {
            Ok(PathAttributeView::Aggregator(AggregatorAttribute { aggregator_as: be16(v, 0), aggregator_id: be32(v, 2) }))
        }
    } else if f & 0x80 == 0 {
        Err(DecodeErrorView::UnrecognizedWellKnownAttribute(code))
    } else {
        Err(DecodeErrorView::OptionalAttributeError)
    }
}

/// Decodes the value `v` of an attribute with flags octet `f` and type code `code`.
pub fn parse_bgp_path_attribute_value(f: u8, code: u8, v: &[u8]) -> (r: Result<PathAttribute, DecodeError>)
    requires
        v@.len() <= u16::MAX,
    ensures
        match r {
            Ok(a) => attribute_value_spec(f, code, v@) == Ok::<PathAttributeView, DecodeErrorView>(a@),
            Err(e) => attribute_value_spec(f, code, v@) == Err::<PathAttributeView, DecodeErrorView>(e@),
        },
{
    if f & 0x0F != 0 {
        return Err(DecodeError::AttributeFlagsError(code, f));
    }
    if code < 1 || code > 7 {
        if f & 0x80 == 0 {
            return Err(DecodeError::UnrecognizedWellKnownAttribute(code));
        } else {
            return Err(DecodeError::OptionalAttributeError);
        }
    }
    let flags_ok = if code == 7 {
        f & 0xC0 == 0xC0
    } else if code == 4 {
        f & 0xE0 == 0x80
    } else {
        f & 0xE0 == 0x40
    };
    if !flags_ok {
        return Err(DecodeError::AttributeFlagsError(code, f));
    }
    let len = v.len();
    let len_ok = if code == 1 {
        len == 1
    } else if code == 2 {
        true
    } else if code == 6 {
        len == 0
    } else if code == 7 {
        len == 6
    } else {
        len == 4
    };
    if !len_ok {
        return Err(DecodeError::AttributeLengthError(code, len as u16));
    }
    if code == 1 {
        match BgpOriginCode::from_code(v[0]) {
            Some(o) => Ok(PathAttribute::Origin(OriginAttribute { origin_code: o })),
            None => Err(DecodeError::InvalidOriginAttribute(v[0])),
        }
    } else if code == 2 {
        match parse_as_path_segments(v) {
            Ok(segs) => Ok(PathAttribute::AsPath(AsPathAttribute { as_path: segs })),
            Err(e) => Err(e),
        }
    } else if code == 3 {
        Ok(PathAttribute::NextHop(NextHopAttribute { next_hop: read_u32(v, 0) }))
    } else if code == 4 {
        Ok(PathAttribute::MultiExitDisc(MultiExitDiscAttribute { metric: read_u32(v, 0) }))
    } else if code == 5 {
        Ok(PathAttribute::LocalPref(LocalPrefAttribute { preference: read_u32(v, 0) }))
    } else if code == 6 {
        Ok(PathAttribute::AtomicAggregate)
    } else {
        Ok(PathAttribute::Aggregator(AggregatorAttribute { aggregator_as: read_u16(v, 0), aggregator_id: read_u32(v, 2) }))
    }
}

/// The octets before an attribute's value: flags, type code and a length
/// of one octet, or two when the extended-length flag is set.
pub open spec fn attribute_header_len(s: Seq<u8>) -> int {
    if s[0] & 0x10 != 0 { 4 } else { 3 }
}

/// The length of an attribute's value.
pub open spec fn attribute_value_len(s: Seq<u8>) -> int {
    if s[0] & 0x10 != 0 { be16(s, 2) as int } else { s[2] as int }
}

/// A list of path attributes, each flags, type code, length and value.
pub open spec fn attributes_spec(s: Seq<u8>) -> Result<Seq<(BgpPathAttributeFlags, PathAttributeView)>, DecodeErrorView>
    decreases s.len(),
{
    if s.len() == 0 {
        Ok(Seq::empty())
    } else if s.len() < 3 || s.len() < attribute_header_len(s) || attribute_header_len(s) + attribute_value_len(s)
        > s.len() {
        Err(DecodeErrorView::MalformedAttributeList)
    } else {
        let h = attribute_header_len(s);
        let n = h + attribute_value_len(s);
        match attribute_value_spec(s[0], s[1], s.subrange(h, n)) {
            Ok(a) => cons_ok((flags_of(s[0]), a), attributes_spec(s.skip(n))),
            Err(e) => Err(e),
        }
    }
}

/// Decodes the path attributes of an UPDATE.
pub fn parse_bgp_path_attributes(s: &[u8]) -> (r: Result<Vec<BgpPathAttribute>, DecodeError>)
    ensures
        match r {
            Ok(v) => attributes_spec(s@) == Ok::<Seq<(BgpPathAttributeFlags, PathAttributeView)>, DecodeErrorView>(
                attributes_view(v@),
            ),
            Err(e) => attributes_spec(s@) == Err::<Seq<(BgpPathAttributeFlags, PathAttributeView)>, DecodeErrorView>(
                e@,
            ),
        },
{
    let mut out: Vec<BgpPathAttribute> = Vec::new();
    let mut pos: usize = 0;
    proof {
        assert(s@.skip(0) =~= s@);
        assert(attributes_view(out@) =~= Seq::<(BgpPathAttributeFlags, PathAttributeView)>::empty());
        lemma_append_empty(attributes_spec(s@));
    }
    while pos < s.len()
        invariant
            pos <= s@.len(),
            attributes_spec(s@) == append_ok(attributes_view(out@), attributes_spec(s@.skip(pos as int))),
        decreases s@.len() - pos,
    {
        let ghost t = s@.skip(pos as int);
        let rest = s.len() - pos;
        if rest < 3 {
            return Err(DecodeError::MalformedAttributeList);
        }
        let f = s[pos];
        let code = s[pos + 1];
        let extended = f & 0x10 != 0;
        if extended && rest < 4 {
            return Err(DecodeError::MalformedAttributeList);
        }
        let h: usize = if extended { 4 } else { 3 };
        let len: usize = if extended { read_u16(s, pos + 2) as usize } else { s[pos + 2] as usize };
        proof {
            assert(h == attribute_header_len(t));
            assert(len == attribute_value_len(t));
        }
        if h + len > rest {
            return Err(DecodeError::MalformedAttributeList);
        }
        let v = slice_subrange(s, pos + h, pos + h + len);
        proof {
            assert(v@ =~= t.subrange(h as int, (h + len) as int));
        }
        let a = match parse_bgp_path_attribute_value(f, code, v) {
            Ok(a) => a,
            Err(e) => return Err(e),
        };
        let attr = BgpPathAttribute { flags: parse_bgp_path_attribute_flags(f), attribute: a };
        proof {
            assert(t.skip((h + len) as int) =~= s@.skip(pos + h + len));
            lemma_append_cons(attributes_view(out@), attr@, attributes_spec(t.skip((h + len) as int)));
            assert(attributes_view(out@.push(attr)) =~= attributes_view(out@).push(attr@));
        }
        out.push(attr);
        pos = pos + h + len;
    }
    proof {
        assert(s@.skip(pos as int) =~= Seq::<u8>::empty());
        assert(attributes_view(out@) + Seq::<(BgpPathAttributeFlags, PathAttributeView)>::empty() =~= attributes_view(
            out@,
        ));
    }
    Ok(out)
}

// ------------------------------------------------------------------ OPEN

/// What a list of capabilities holds: the recognised ones, and the codes of
/// the others.
pub open spec fn cons_capability(
    x: CapabilityParameter,
    r: Result<(Seq<CapabilityParameter>, Seq<u8>), DecodeErrorView>,
) -> Result<(Seq<CapabilityParameter>, Seq<u8>), DecodeErrorView> {
    match r {
        Ok((caps, unsupported)) => Ok((seq![x] + caps, unsupported)),
        Err(e) => Err(e),
    }
}

pub open spec fn cons_unsupported(
    code: u8,
    r: Result<(Seq<CapabilityParameter>, Seq<u8>), DecodeErrorView>,
) -> Result<(Seq<CapabilityParameter>, Seq<u8>), DecodeErrorView> {
    match r {
        Ok((caps, unsupported)) => Ok((caps, seq![code] + unsupported)),
        Err(e) => Err(e),
    }
}

pub open spec fn append_capabilities(
    caps: Seq<CapabilityParameter>,
    unsupported: Seq<u8>,
    r: Result<(Seq<CapabilityParameter>, Seq<u8>), DecodeErrorView>,
) -> Result<(Seq<CapabilityParameter>, Seq<u8>), DecodeErrorView> {
    match r {
        Ok((c, u)) => Ok((caps + c, unsupported + u)),
        Err(e) => Err(e),
    }
}

/// The capabilities of a Capabilities parameter of an OPEN of length `l`:
/// each a code, a length and a value. Multiprotocol Extensions (code 1,
/// length 4: AFI, a reserved octet, SAFI) and Route Refresh (code 2, length
/// 0) are recognised. A capability that overruns the list is a length error.
pub open spec fn capabilities_spec(s: Seq<u8>, l: u16) -> Result<(Seq<CapabilityParameter>, Seq<u8>), DecodeErrorView>
    decreases s.len(),
{
    if s.len() == 0 {
        Ok((Seq::empty(), Seq::empty()))
    } else if s.len() < 2 || 2 + s[1] > s.len() {
        Err(DecodeErrorView::BadMessageLength(l))
    } else {
        let rest = capabilities_spec(s.skip(2 + s[1]), l);
        if s[0] == 1 && s[1] == 4 {
            cons_capability(
                CapabilityParameter::MultiprotocolExtensions(
                    MultiprotocolExtensionsCapability { afi: be16(s, 2), safi: s[5] },
                ),
                rest,
            )
        } else if s[0] == 2 && s[1] == 0 {
            cons_capability(CapabilityParameter::RouteRefresh, rest)
        } else {
            cons_unsupported(s[0], rest)
        }
    }
}

/// Decodes the capabilities of a Capabilities parameter of an OPEN of length
/// `l`, into the recognised ones and the codes of the others.
pub fn parse_capability_parameters(s: &[u8], l: u16) -> (r: Result<(Vec<CapabilityParameter>, Vec<u8>), DecodeError>)
    ensures
        match r {
            Ok((caps, unsupported)) => capabilities_spec(s@, l) == Ok::<(Seq<CapabilityParameter>, Seq<u8>), DecodeErrorView>(
                (caps@, unsupported@),
            ),
            Err(e) => capabilities_spec(s@, l) == Err::<(Seq<CapabilityParameter>, Seq<u8>), DecodeErrorView>(e@),
        },
{
    let mut caps: Vec<CapabilityParameter> = Vec::new();
    let mut unsupported: Vec<u8> = Vec::new();
    let mut pos: usize = 0;
    proof {
        assert(s@.skip(0) =~= s@);
        match capabilities_spec(s@, l) {
            Ok((c, u)) => {
                assert(caps@ + c =~= c);
                assert(unsupported@ + u =~= u);
            },
            Err(e) => {},
        }
    }
    while pos < s.len()
        invariant
            pos <= s@.len(),
            capabilities_spec(s@, l) == append_capabilities(caps@, unsupported@, capabilities_spec(s@.skip(pos as int), l)),
        decreases s@.len() - pos,
    {
        let ghost t = s@.skip(pos as int);
        if s.len() - pos < 2 || 2 + s[pos + 1] as usize > s.len() - pos {
            return Err(DecodeError::BadMessageLength(l));
        }
        let code = s[pos];
        let len = s[pos + 1] as usize;
        let ghost rest = capabilities_spec(t.skip(2 + len), l);
        proof {
            assert(t.skip(2 + len) =~= s@.skip(pos + 2 + len));
        }
        if code == 1 && len == 4 {
            let c = CapabilityParameter::MultiprotocolExtensions(
                MultiprotocolExtensionsCapability { afi: read_u16(s, pos + 2), safi: s[pos + 5] },
            );
            proof {
                match rest {
                    Ok((rc, ru)) => {
                        assert(caps@ + (seq![c] + rc) =~= caps@.push(c) + rc);
                    },
                    Err(e) => {},
                }
            }
            caps.push(c);
        } else if code == 2 && len == 0 {
            let c = CapabilityParameter::RouteRefresh;
            proof {
                match rest {
                    Ok((rc, ru)) => {
                        assert(caps@ + (seq![c] + rc) =~= caps@.push(c) + rc);
                    },
                    Err(e) => {},
                }
            }
            caps.push(c);
        } else {
            proof {
                match rest {
                    Ok((rc, ru)) => {
                        assert(unsupported@ + (seq![code] + ru) =~= unsupported@.push(code) + ru);
                    },
                    Err(e) => {},
                }
            }
            unsupported.push(code);
        }
        pos = pos + 2 + len;
    }
    proof {
        assert(s@.skip(pos as int) =~= Seq::<u8>::empty());
        assert(caps@ + Seq::<CapabilityParameter>::empty() =~= caps@);
        assert(unsupported@ + Seq::<u8>::empty() =~= unsupported@);
    }
    Ok((caps, unsupported))
}

pub open spec fn append_parameters(
    params: Seq<Seq<CapabilityParameter>>,
    unsupported: Seq<u8>,
    r: Result<(Seq<Seq<CapabilityParameter>>, Seq<u8>), DecodeErrorView>,
) -> Result<(Seq<Seq<CapabilityParameter>>, Seq<u8>), DecodeErrorView> {
    match r {
        Ok((p, u)) => Ok((params + p, unsupported + u)),
        Err(e) => Err(e),
    }
}

/// The optional parameters of an OPEN of length `l`: each a type, a length
/// and a value. Only Capabilities (type 2) is recognised; the codes of the
/// capabilities not recognised are gathered over all parameters.
pub open spec fn parameters_spec(s: Seq<u8>, l: u16) -> Result<(Seq<Seq<CapabilityParameter>>, Seq<u8>), DecodeErrorView>
    decreases s.len(),
{
    if s.len() == 0 {
        Ok((Seq::empty(), Seq::empty()))
    } else if s.len() < 2 || 2 + s[1] > s.len() {
        Err(DecodeErrorView::BadMessageLength(l))
    } else if s[0] != 2 {
        Err(DecodeErrorView::UnsupportedOptionalParameter)
    } else {
        match capabilities_spec(s.subrange(2, 2 + s[1]), l) {
            Err(e) => Err(e),
            Ok((caps, unsupported)) => append_parameters(seq![caps], unsupported, parameters_spec(s.skip(2 + s[1]), l)),
        }
    }
}

/// Decodes the optional parameters of an OPEN of length `l`, and gathers the
/// codes of the capabilities not recognised.
pub fn parse_optional_parameters(s: &[u8], l: u16) -> (r: Result<(Vec<OptionalParameter>, Vec<u8>), DecodeError>)
    ensures
        match r {
            Ok((params, unsupported)) => parameters_spec(s@, l) == Ok::<
                (Seq<Seq<CapabilityParameter>>, Seq<u8>),
                DecodeErrorView,
            >((parameters_view(params@), unsupported@)),
            Err(e) => parameters_spec(s@, l) == Err::<(Seq<Seq<CapabilityParameter>>, Seq<u8>), DecodeErrorView>(e@),
        },
{
    let mut params: Vec<OptionalParameter> = Vec::new();
    let mut unsupported: Vec<u8> = Vec::new();
    let mut pos: usize = 0;
    proof {
        assert(s@.skip(0) =~= s@);
        assert(parameters_view(params@) =~= Seq::<Seq<CapabilityParameter>>::empty());
        match parameters_spec(s@, l) {
            Ok((p, u)) => {
                assert(parameters_view(params@) + p =~= p);
                assert(unsupported@ + u =~= u);
            },
            Err(e) => {},
        }
    }
    while pos < s.len()
        invariant
            pos <= s@.len(),
            parameters_spec(s@, l) == append_parameters(
                parameters_view(params@),
                unsupported@,
                parameters_spec(s@.skip(pos as int), l),
            ),
        decreases s@.len() - pos,
    {
        let ghost t = s@.skip(pos as int);
        if s.len() - pos < 2 || 2 + s[pos + 1] as usize > s.len() - pos {
            return Err(DecodeError::BadMessageLength(l));
        }
        if s[pos] != 2 {
            return Err(DecodeError::UnsupportedOptionalParameter);
        }
        let len = s[pos + 1] as usize;
        let value = slice_subrange(s, pos + 2, pos + 2 + len);
        proof {
            assert(value@ =~= t.subrange(2, 2 + len));
            assert(t.skip(2 + len) =~= s@.skip(pos + 2 + len));
        }
        let (caps, mut more) = match parse_capability_parameters(value, l) {
            Ok(r) => r,
            Err(e) => return Err(e),
        };
        let p = OptionalParameter::Capability(caps);
        proof {
            let ghost_caps = p@;
            match parameters_spec(t.skip(2 + len), l) {
                Ok((rp, ru)) => {
                    assert(parameters_view(params@) + (seq![ghost_caps] + rp) =~= parameters_view(params@.push(p)) + rp);
                    assert(unsupported@ + (more@ + ru) =~= (unsupported@ + more@) + ru);
                },
                Err(e) => {},
            }
        }
        params.push(p);
        unsupported.append(&mut more);
        pos = pos + 2 + len;
    }
    proof {
        assert(s@.skip(pos as int) =~= Seq::<u8>::empty());
        assert(parameters_view(params@) + Seq::<Seq<CapabilityParameter>>::empty() =~= parameters_view(params@));
        assert(unsupported@ + Seq::<u8>::empty() =~= unsupported@);
    }
    Ok((params, unsupported))
}

/// The body (the octets after the header) of an OPEN of length `l`: version,
/// my AS, hold time, BGP identifier, the length of the optional parameters
/// and the parameters, which end the message.
pub open spec fn open_spec(b: Seq<u8>, l: u16) -> Result<BgpOpenMessageView, DecodeErrorView> {
    if b[0] != 4 {
        Err(DecodeErrorView::UnsupportedVersionNumber(b[0]))
    } else if be16(b, 3) == 1 || be16(b, 3) == 2 {
        Err(DecodeErrorView::UnacceptableHoldTime(be16(b, 3)))
    } else if be32(b, 5) >= 0xE000_0000 {
        Err(DecodeErrorView::BadBgpIdentifier)
    } else if 10 + b[9] != b.len() {
        Err(DecodeErrorView::BadMessageLength(l))
    } else {
        match parameters_spec(b.skip(10), l) {
            Err(e) => Err(e),
            Ok((params, unsupported)) => if unsupported.len() > 0 {
                Err(DecodeErrorView::UnsupportedCapability(unsupported))
            } else {
                Ok(
                    BgpOpenMessageView {
                        version: b[0],
                        my_autonomous_system: be16(b, 1),
                        hold_time: be16(b, 3),
                        bgp_identifier: be32(b, 5),
                        optional_parameters: params,
                    },
                )
            },
        }
    }
}

/// Decodes the body of an OPEN of length `l`.
pub fn parse_bgp_open(b: &[u8], l: u16) -> (r: Result<BgpOpenMessage, DecodeError>)
    requires
        b@.len() >= 10,
    ensures
        match r {
            Ok(m) => open_spec(b@, l) == Ok::<BgpOpenMessageView, DecodeErrorView>(m@),
            Err(e) => open_spec(b@, l) == Err::<BgpOpenMessageView, DecodeErrorView>(e@),
        },
{
    let version = b[0];
    if version != 4 {
        return Err(DecodeError::UnsupportedVersionNumber(version));
    }
    let hold_time = read_u16(b, 3);
    if hold_time == 1 || hold_time == 2 {
        return Err(DecodeError::UnacceptableHoldTime(hold_time));
    }
    let bgp_identifier = read_u32(b, 5);
    if bgp_identifier >= 0xE000_0000 {
        return Err(DecodeError::BadBgpIdentifier);
    }
    if 10 + b[9] as usize != b.len() {
        return Err(DecodeError::BadMessageLength(l));
    }
    let params = slice_subrange(b, 10, b.len());
    proof {
        assert(params@ =~= b@.skip(10));
    }
    let (optional_parameters, unsupported) = match parse_optional_parameters(params, l) {
        Ok(r) => r,
        Err(e) => return Err(e),
    };
    if unsupported.len() > 0 {
        return Err(DecodeError::UnsupportedCapability(unsupported));
    }
    Ok(
        BgpOpenMessage {
            version,
            my_autonomous_system: read_u16(b, 1),
            hold_time,
            bgp_identifier,
            optional_parameters,
        },
    )
}

// ---------------------------------------------------------------- UPDATE

/// The type code of a decoded attribute.
pub open spec fn code_of(a: PathAttributeView) -> u8 {
    match a {
        PathAttributeView::Origin(_) => 1,
        PathAttributeView::AsPath(_) => 2,
        PathAttributeView::NextHop(_) => 3,
        PathAttributeView::MultiExitDisc(_) => 4,
        PathAttributeView::LocalPref(_) => 5,
        PathAttributeView::AtomicAggregate => 6,
        PathAttributeView::Aggregator(_) => 7,
    }
}

/// Some attribute of `attrs` has type code `c`.
pub open spec fn has_code(attrs: Seq<(BgpPathAttributeFlags, PathAttributeView)>, c: u8) -> bool {
    exists|i: int| 0 <= i < attrs.len() && code_of((#[trigger] attrs[i]).1) == c
}

/// Two attributes of `attrs` have the same type code.
pub open spec fn has_duplicate(attrs: Seq<(BgpPathAttributeFlags, PathAttributeView)>) -> bool {
    exists|i: int, j: int|
        0 <= i < j < attrs.len() && code_of((#[trigger] attrs[i]).1) == code_of((#[trigger] attrs[j]).1)
}

/// The first of ORIGIN, AS_PATH and NEXT_HOP, which an UPDATE that carries
/// NLRI must hold, that `attrs` lacks.
pub open spec fn missing_mandatory(attrs: Seq<(BgpPathAttributeFlags, PathAttributeView)>) -> Option<u8> {
    if !has_code(attrs, 1) {
        Some(1u8)
    } else if !has_code(attrs, 2) {
        Some(2u8)
    } else if !has_code(attrs, 3) {
        Some(3u8)
    } else {
        None
    }
}

fn attribute_code(a: &PathAttribute) -> (r: u8)
    ensures
        r == code_of(a@),
{
    match a {
        PathAttribute::Origin(_) => 1,
        PathAttribute::AsPath(_) => 2,
        PathAttribute::NextHop(_) => 3,
        PathAttribute::MultiExitDisc(_) => 4,
        PathAttribute::LocalPref(_) => 5,
        PathAttribute::AtomicAggregate => 6,
        PathAttribute::Aggregator(_) => 7,
    }
}

/// Whether a type code repeats among the attributes, and if none does,
/// which type codes they hold.
fn scan_codes(attrs: &Vec<BgpPathAttribute>) -> (r: (Vec<bool>, bool))
    ensures
        r.1 == has_duplicate(attributes_view(attrs@)),
        r.0@.len() == 8,
        !r.1 ==> forall|c: int| 1 <= c <= 7 ==> r.0@[c] == has_code(attributes_view(attrs@), c as u8),
{
    let ghost all = attributes_view(attrs@);
    let mut seen: Vec<bool> = vec![false, false, false, false, false, false, false, false];
    let mut i: usize = 0;
    while i < attrs.len()
        invariant
            i <= attrs.len(),
            all == attributes_view(attrs@),
            seen@.len() == 8,
            forall|c: int| 1 <= c <= 7 ==> seen@[c] == has_code(all.take(i as int), c as u8),
            !has_duplicate(all.take(i as int)),
        decreases attrs.len() - i,
    {
        let c = attribute_code(&attrs[i].attribute);
        let ghost pre = all.take(i as int);
        let ghost next = all.take(i + 1);
        proof {
            assert(next =~= pre.push(all[i as int]));
            assert(all[i as int] == attrs@[i as int]@);
            assert(1 <= c <= 7);
        }
        if seen[c as usize] {
            proof {
                let k = choose|k: int| 0 <= k < pre.len() && code_of((#[trigger] pre[k]).1) == c;
                assert(next[k] == pre[k]);
                assert(code_of(next[k].1) == code_of(next[i as int].1));
                assert(has_duplicate(next));
                assert forall|a: int, b: int| 0 <= a < b < next.len() implies next[a] == all[a] && next[b] == all[b] by {}
                assert(all[k] == next[k] && all[i as int] == next[i as int]);
                assert(has_duplicate(all));
            }
            return (seen, true);
        }
        seen.set(c as usize, true);
        proof {
            assert forall|x: int| 1 <= x <= 7 implies seen@[x] == has_code(next, x as u8) by {
                if has_code(next, x as u8) {
                    let k = choose|k: int| 0 <= k < next.len() && code_of((#[trigger] next[k]).1) == x as u8;
                    if k < pre.len() {
                        assert(pre[k] == next[k]);
                    }
                }
                if has_code(pre, x as u8) {
                    let k = choose|k: int| 0 <= k < pre.len() && code_of((#[trigger] pre[k]).1) == x as u8;
                    assert(next[k] == pre[k]);
                }
                if x == c {
                    assert(code_of(next[i as int].1) == c);
                }
            }
            if has_duplicate(next) {
                let (a, b) = choose|a: int, b: int|
                    0 <= a < b < next.len() && code_of((#[trigger] next[a]).1) == code_of((#[trigger] next[b]).1);
                if b < pre.len() {
                    assert(pre[a] == next[a] && pre[b] == next[b]);
                } else {
                    assert(pre[a] == next[a]);
                    assert(has_code(pre, c));
                }
            }
        }
        i = i + 1;
    }
    proof {
        assert(all.take(attrs.len() as int) =~= all);
    }
    (seen, false)
}

/// The body of an UPDATE: the length of the withdrawn routes and the routes,
/// the length of the path attributes and the attributes, then the NLRI up
/// to the end of the message. An attribute type may appear once, and an
/// UPDATE that carries NLRI must hold ORIGIN, AS_PATH and NEXT_HOP.
pub open spec fn update_spec(b: Seq<u8>) -> Result<BgpUpdateMessageView, DecodeErrorView> {
    let wl = be16(b, 0) as int;
    if 4 + wl > b.len() {
        Err(DecodeErrorView::MalformedAttributeList)
    } else {
        match prefixes_spec(b.subrange(2, 2 + wl)) {
            Err(e) => Err(e),
            Ok(withdrawn) => {
                let al = be16(b, 2 + wl) as int;
                if 4 + wl + al > b.len() {
                    Err(DecodeErrorView::MalformedAttributeList)
                } else {
                    match attributes_spec(b.subrange(4 + wl, 4 + wl + al)) {
                        Err(e) => Err(e),
                        Ok(attributes) => if has_duplicate(attributes) {
                            Err(DecodeErrorView::MalformedAttributeList)
                        } else {
                            match prefixes_spec(b.skip(4 + wl + al)) {
                                Err(e) => Err(e),
                                Ok(nlri) => if nlri.len() > 0 && missing_mandatory(attributes).is_some() {
                                    Err(DecodeErrorView::MissingWellKnownAttribute(missing_mandatory(attributes).unwrap()))
                                } else {
                                    Ok(
                                        BgpUpdateMessageView {
                                            withdrawn_routes: withdrawn,
                                            path_attributes: attributes,
                                            nlri,
                                        },
                                    )
                                },
                            }
                        },
                    }
                }
            },
        }
    }
}

/// Decodes the body of an UPDATE.
pub fn parse_bgp_update(b: &[u8]) -> (r: Result<BgpUpdateMessage, DecodeError>)
    requires
        b@.len() >= 4,
    ensures
        match r {
            Ok(m) => update_spec(b@) == Ok::<BgpUpdateMessageView, DecodeErrorView>(m@),
            Err(e) => update_spec(b@) == Err::<BgpUpdateMessageView, DecodeErrorView>(e@),
        },
{
    let wl = read_u16(b, 0) as usize;
    if 4 + wl > b.len() {
        return Err(DecodeError::MalformedAttributeList);
    }
    let w = slice_subrange(b, 2, 2 + wl);
    let withdrawn_routes = match parse_bgp_prefixes(w) {
        Ok(v) => v,
        Err(e) => return Err(e),
    };
    let al = read_u16(b, 2 + wl) as usize;
    if 4 + wl + al > b.len() {
        return Err(DecodeError::MalformedAttributeList);
    }
    let a = slice_subrange(b, 4 + wl, 4 + wl + al);
    let path_attributes = match parse_bgp_path_attributes(a) {
        Ok(v) => v,
        Err(e) => return Err(e),
    };
    let (seen, duplicate) = scan_codes(&path_attributes);
    if duplicate {
        return Err(DecodeError::MalformedAttributeList);
    }
    let n = slice_subrange(b, 4 + wl + al, b.len());
    proof {
        assert(n@ =~= b@.skip(4 + wl + al));
    }
    let nlri = match parse_bgp_prefixes(n) {
        Ok(v) => v,
        Err(e) => return Err(e),
    };
    if nlri.len() > 0 {
        if !seen[1] {
            return Err(DecodeError::MissingWellKnownAttribute(1));
        } else if !seen[2] {
            return Err(DecodeError::MissingWellKnownAttribute(2));
        } else if !seen[3] {
            return Err(DecodeError::MissingWellKnownAttribute(3));
        }
    }
    Ok(BgpUpdateMessage { withdrawn_routes, path_attributes, nlri })
}

// ---------------------------------------------------------- NOTIFICATION

/// The body of a NOTIFICATION: error code, subcode, and data to the end.
pub open spec fn notification_spec(b: Seq<u8>) -> BgpNotificationMessageView {
    BgpNotificationMessageView { error_code: b[0], error_subcode: b[1], data: b.skip(2) }
}

/// Decodes the body of a NOTIFICATION.
pub fn parse_bgp_notification(b: &[u8]) -> (r: BgpNotificationMessage)
    requires
        b@.len() >= 2,
    ensures
        r@ == notification_spec(b@),
{
    let data = vstd::slice::slice_to_vec(slice_subrange(b, 2, b.len()));
    proof {
        assert(data@ =~= b@.skip(2));
    }
    BgpNotificationMessage { error_code: b[0], error_subcode: b[1], data }
}

// --------------------------------------------------------------- messages

/// The outcome of decoding a message from the start of some octets.
pub enum DecodeOutcome {
    /// A message of `n` octets was decoded.
    Done(nat, BgpMessageView),
    /// This many more octets are needed.
    Incomplete(nat),
    Error(DecodeErrorView),
}

/// What decoding a message from the start of `input` gives.
pub enum Decoded<'a> {
    /// The octets after the message, and the message.
    Done(&'a [u8], BgpMessage),
    /// This many more octets are needed before the message can be decoded.
    Incomplete(usize),
    Error(DecodeError),
}

/// The first `n` octets of `b` are all ones, as the header's marker must be.
pub open spec fn marker_ok(b: Seq<u8>, n: int) -> bool {
    forall|i: int| 0 <= i < n ==> b[i] == 0xFF
}

/// The least length a message of type `t` may have, and whether it must have exactly that.
pub open spec fn length_fits_type(t: u8, l: u16) -> bool {
    if t == 1 {
        l >= 29
    } else if t == 2 {
        l >= 23
    } else if t == 3 {
        l >= 21
    } else {
        l == 19
    }
}

/// What the octets of `b` mean as a BGP message: a 16-octet marker of all
/// ones, the length of the whole message (19 to 4096), its type (OPEN 1,
/// UPDATE 2, NOTIFICATION 3, KEEPALIVE 4), and a body that fills the rest of
/// the length. The header is checked, type by type, before more octets are
/// asked for.
pub open spec fn decode_spec(b: Seq<u8>) -> DecodeOutcome {
    if !marker_ok(b, if b.len() < 16 { b.len() as int } else { 16 }) {
        DecodeOutcome::Error(DecodeErrorView::ConnectionNotSynchronized)
    } else if b.len() < 19 {
        DecodeOutcome::Incomplete((19 - b.len()) as nat)
    } else {
        let l = be16(b, 16);
        let t = b[18];
        if l < 19 || l > 4096 {
            DecodeOutcome::Error(DecodeErrorView::BadMessageLength(l))
        } else if t < 1 || t > 4 {
            DecodeOutcome::Error(DecodeErrorView::BadMessageType(t))
        } else if !length_fits_type(t, l) {
            DecodeOutcome::Error(DecodeErrorView::BadMessageLength(l))
        } else if b.len() < l {
            DecodeOutcome::Incomplete((l - b.len()) as nat)
        } else {
            let body = b.subrange(19, l as int);
            if t == 1 {
                match open_spec(body, l) {
                    Ok(m) => DecodeOutcome::Done(l as nat, BgpMessageView::Open(m)),
                    Err(e) => DecodeOutcome::Error(e),
                }
            } else if t == 2 {
                match update_spec(body) {
                    Ok(m) => DecodeOutcome::Done(l as nat, BgpMessageView::Update(m)),
                    Err(e) => DecodeOutcome::Error(e),
                }
            } else if t == 3 {
                DecodeOutcome::Done(l as nat, BgpMessageView::Notification(notification_spec(body)))
            } else {
                DecodeOutcome::Done(l as nat, BgpMessageView::Keepalive)
            }
        }
    }
}

/// The outcome that `d` stands for, given the octets `input` it was decoded from.
pub open spec fn outcome_of(input: Seq<u8>, d: Decoded) -> DecodeOutcome {
    match d {
        Decoded::Done(rest, m) => DecodeOutcome::Done((input.len() - rest@.len()) as nat, m@),
        Decoded::Incomplete(n) => DecodeOutcome::Incomplete(n as nat),
        Decoded::Error(e) => DecodeOutcome::Error(e@),
    }
}

/// Decodes one BGP message from the start of `input`. Every input gives an
/// outcome; a decoded message leaves the octets after it.
pub fn parse_bgp_message<'a>(input: &'a [u8]) -> (r: Decoded<'a>)
    ensures
        outcome_of(input@, r) == decode_spec(input@),
        r matches Decoded::Done(rest, _) ==> rest@ == input@.skip(input@.len() - rest@.len()),
{
    let n: usize = if input.len() < 16 { input.len() } else { 16 };
    let mut i: usize = 0;
    while i < n
        invariant
            i <= n <= input@.len(),
            n == if input@.len() < 16 { input@.len() as int } else { 16 },
            marker_ok(input@, i as int),
        decreases n - i,
    {
        if input[i] != 0xFF {
            return Decoded::Error(DecodeError::ConnectionNotSynchronized);
        }
        i = i + 1;
    }
    if input.len() < 19 {
        return Decoded::Incomplete(19 - input.len());
    }
    let l = read_u16(input, 16);
    let t = input[18];
    if l < 19 || l > 4096 {
        return Decoded::Error(DecodeError::BadMessageLength(l));
    }
    if t < 1 || t > 4 {
        return Decoded::Error(DecodeError::BadMessageType(t));
    }
    let fits = if t == 1 {
        l >= 29
    } else if t == 2 {
        l >= 23
    } else if t == 3 {
        l >= 21
    } else {
        l == 19
    };
    if !fits {
        return Decoded::Error(DecodeError::BadMessageLength(l));
    }
    let len = l as usize;
    if input.len() < len {
        return Decoded::Incomplete(len - input.len());
    }
    let body = slice_subrange(input, 19, len);
    let rest = slice_subrange(input, len, input.len());
    proof {
        assert(rest@ =~= input@.skip(len as int));
    }
    if t == 1 {
        match parse_bgp_open(body, l) {
            Ok(m) => Decoded::Done(rest, BgpMessage::Open(m)),
            Err(e) => Decoded::Error(e),
        }
    } else if t == 2 {
        match parse_bgp_update(body) {
            Ok(m) => Decoded::Done(rest, BgpMessage::Update(m)),
            Err(e) => Decoded::Error(e),
        }
    } else if t == 3 {
        Decoded::Done(rest, BgpMessage::Notification(parse_bgp_notification(body)))
    } else {
        Decoded::Done(rest, BgpMessage::Keepalive)
    }
}

} // verus!
