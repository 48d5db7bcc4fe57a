use aggbgp::decoder::{
    parse_as_path_segments, parse_bgp_message, parse_bgp_notification, parse_bgp_path_attribute_flags,
    parse_bgp_path_attributes, parse_bgp_prefixes, parse_bgp_update, parse_capability_parameters,
    parse_optional_parameters, Decoded,
};
use aggbgp::message::{
    AggregatorAttribute, AsPathAttribute, AsPathSegment, BgpMessage, BgpNotificationMessage, BgpOpenMessage,
    BgpOriginCode, BgpPathAttribute, BgpPathAttributeFlags, CapabilityParameter, DecodeError, Ipv4Prefix,
    LocalPrefAttribute, MultiExitDiscAttribute, MultiprotocolExtensionsCapability, NextHopAttribute,
    OptionalParameter, OriginAttribute, PathAttribute,
};

fn message(len: u16, msg_type: u8, body: &[u8]) -> Vec<u8> {
    let mut v = vec![0xFFu8; 16];
    v.push((len >> 8) as u8);
    v.push(len as u8);
    v.push(msg_type);
    v.extend_from_slice(body);
    v
}

fn open1() -> Vec<u8> {
    message(29, 1, &[0x04, 0xFE, 0x09, 0x00, 0xB4, 0xC0, 0xA8, 0x00, 0x0F, 0x00])
}

fn optional_parameters1() -> Vec<u8> {
    vec![0x02, 0x06, 0x01, 0x04, 0x00, 0x01, 0x00, 0x01, 0x02, 0x00, 0x02, 0x02, 0x02, 0x00]
}

fn three_parameters() -> Vec<OptionalParameter> {
    vec![
        OptionalParameter::Capability(vec![CapabilityParameter::MultiprotocolExtensions(
            MultiprotocolExtensionsCapability { afi: 1, safi: 1 },
        )]),
        OptionalParameter::Capability(vec![]),
        OptionalParameter::Capability(vec![CapabilityParameter::RouteRefresh]),
    ]
}

fn done(input: &[u8]) -> (usize, BgpMessage) {
    match parse_bgp_message(input) {
        Decoded::Done(rest, m) => (rest.len(), m),
        Decoded::Incomplete(n) => panic!("incomplete: {}", n),
        Decoded::Error(e) => panic!("error: {:?}", e),
    }
}

fn error(input: &[u8]) -> DecodeError {
    match parse_bgp_message(input) {
        Decoded::Error(e) => e,
        Decoded::Incomplete(n) => panic!("incomplete: {}", n),
        Decoded::Done(_, m) => panic!("decoded: {:?}", m),
    }
}

fn well_known(code: u8, value: &[u8]) -> Vec<u8> {
    let mut v = vec![0x40u8, code, value.len() as u8];
    v.extend_from_slice(value);
    v
}

fn single_attribute(input: &[u8]) -> BgpPathAttribute {
    let mut v = parse_bgp_path_attributes(input).unwrap();
    assert_eq!(v.len(), 1);
    v.remove(0)
}

const WELL_KNOWN: BgpPathAttributeFlags =
    BgpPathAttributeFlags { optional: false, transitive: true, partial: false, extended_length: false };

#[test]
fn parse_bgp_open_test1() {
    let input = open1();
    let msg = BgpMessage::Open(BgpOpenMessage {
        version: 4,
        my_autonomous_system: 65033,
        hold_time: 180,
        bgp_identifier: 3232235535,
        optional_parameters: vec![],
    });
    assert_eq!(done(&input), (0, msg));

    let mut x = input.clone();
    x[17] = 28u8;
    assert_eq!(error(&x), DecodeError::BadMessageLength(28));
}

#[test]
fn parse_bgp_open_test3() {
    let mut body = vec![0x04, 0xFE, 0xB0, 0x00, 0xB4, 0x0A, 0x14, 0x03, 0x01, 14];
    body.extend_from_slice(&optional_parameters1());
    let input = message(43, 1, &body);
    let msg = BgpMessage::Open(BgpOpenMessage {
        version: 4,
        my_autonomous_system: 65200,
        hold_time: 180,
        bgp_identifier: 169083649,
        optional_parameters: three_parameters(),
    });
    assert_eq!(done(&input), (0, msg));
}

#[test]
fn parse_optional_parameters_test() {
    let input = optional_parameters1();
    assert_eq!(parse_optional_parameters(&input, 43), Ok((three_parameters(), vec![])));
}

#[test]
fn parse_capability_parameters_test() {
    let input = [0x01u8, 0x04, 0x00, 0x01, 0x00, 0x01];
    let capability_parameters = vec![CapabilityParameter::MultiprotocolExtensions(
        MultiprotocolExtensionsCapability { afi: 1, safi: 1 },
    )];
    assert_eq!(parse_capability_parameters(&input, 43), Ok((capability_parameters, vec![])));
}

#[test]
fn multiprotocol_extensions_capability_test() {
    let input = [0x01u8, 0x04, 0x00, 0x01, 0x00, 0x01];
    let (caps, unsupported) = parse_capability_parameters(&input, 43).unwrap();
    assert_eq!(caps, vec![CapabilityParameter::MultiprotocolExtensions(MultiprotocolExtensionsCapability { afi: 1, safi: 1 })]);
    assert!(unsupported.is_empty());
}

#[test]
fn route_refresh_capability_test() {
    let input = [0x02u8, 0x00];
    assert_eq!(parse_capability_parameters(&input, 43), Ok((vec![CapabilityParameter::RouteRefresh], vec![])));
}

#[test]
fn parse_bgp_keepalive_test() {
    let input = message(19, 4, &[]);
    assert_eq!(done(&input), (0, BgpMessage::Keepalive));

    let mut x = input.clone();
    x[16] = 1u8;
    assert_eq!(error(&x), DecodeError::BadMessageLength(275));
}

#[test]
fn parse_bgp_notification_test() {
    let input = message(23, 3, &[0x02, 0x02, 0xFE, 0x09]);
    let slice = &input[19..];
    assert_eq!(
        parse_bgp_notification(slice),
        BgpNotificationMessage { error_code: 2, error_subcode: 2, data: vec![0xFE, 0x09] }
    );
}

#[test]
fn parse_bgp_notification_full_test() {
    let input = message(23, 3, &[0x02, 0x02, 0xFE, 0x09]);
    assert_eq!(
        done(&input),
        (0, BgpMessage::Notification(BgpNotificationMessage { error_code: 2, error_subcode: 2, data: vec![0xFE, 0x09] }))
    );
}

fn update1_body() -> Vec<u8> {
    let mut attrs = well_known(1, &[0]);
    attrs.extend(well_known(2, &[2, 1, 0xFE, 0xBB]));
    attrs.extend(well_known(3, &[192, 168, 0, 33]));
    let mut body = vec![0x00, 0x04, 24, 10, 1, 2];
    body.push(0);
    body.push(attrs.len() as u8);
    body.extend(attrs);
    body.extend_from_slice(&[22, 192, 168, 4, 32, 10, 0, 0, 1]);
    body
}

#[test]
fn parse_bgp_update_test() {
    let body = update1_body();
    let m = parse_bgp_update(&body).unwrap();
    assert_eq!(m.withdrawn_routes, vec![Ipv4Prefix { prefix: 0x0A01_0200, length: 24 }]);
    assert_eq!(m.path_attributes.len(), 3);
    assert_eq!(
        m.nlri,
        vec![Ipv4Prefix { prefix: 0xC0A8_0400, length: 22 }, Ipv4Prefix { prefix: 0x0A00_0001, length: 32 }]
    );
}

#[test]
fn parse_bgp_update_full_test() {
    let body = update1_body();
    let input = message(19 + body.len() as u16, 2, &body);
    let (rest, m) = done(&input);
    assert_eq!(rest, 0);
    match m {
        BgpMessage::Update(u) => {
            assert_eq!(u.path_attributes[0].attribute, PathAttribute::Origin(OriginAttribute { origin_code: BgpOriginCode::Igp }));
            assert_eq!(u.path_attributes[2].attribute, PathAttribute::NextHop(NextHopAttribute { next_hop: 0xC0A8_0021 }));
        },
        other => panic!("not an update: {:?}", other),
    }
}

#[test]
fn parse_bgp_prefix_test() {
    let input = [22u8, 192, 168, 4];
    assert_eq!(parse_bgp_prefixes(&input), Ok(vec![Ipv4Prefix { prefix: 0xC0A8_0400, length: 22 }]));
}

#[test]
fn parse_bgp_path_attribute_flags_test() {
    assert_eq!(parse_bgp_path_attribute_flags(0b10101010), BgpPathAttributeFlags { optional: true, transitive: false, partial: true, extended_length: false });
    assert_eq!(parse_bgp_path_attribute_flags(0b11111111), BgpPathAttributeFlags { optional: true, transitive: true, partial: true, extended_length: true });
    assert_eq!(parse_bgp_path_attribute_flags(0b01010101), BgpPathAttributeFlags { optional: false, transitive: true, partial: false, extended_length: true });
    assert_eq!(parse_bgp_path_attribute_flags(0b11001100), BgpPathAttributeFlags { optional: true, transitive: true, partial: false, extended_length: false });
}

#[test]
fn parse_bgp_path_attribute_test() {
    let mut input = well_known(1, &[1]);
    input.extend(well_known(5, &[0, 0, 0, 100]));
    let v = parse_bgp_path_attributes(&input).unwrap();
    assert_eq!(
        v[0],
        BgpPathAttribute {
            flags: WELL_KNOWN,
            attribute: PathAttribute::Origin(OriginAttribute { origin_code: BgpOriginCode::Egp }),
        }
    );
    assert_eq!(v[1].attribute, PathAttribute::LocalPref(LocalPrefAttribute { preference: 100 }));
}

#[test]
fn new_origin_attribute_test() {
    assert_eq!(single_attribute(&well_known(1, &[2])).attribute, PathAttribute::Origin(OriginAttribute { origin_code: BgpOriginCode::Incomplete }));
    assert_eq!(single_attribute(&well_known(1, &[0])).attribute, PathAttribute::Origin(OriginAttribute { origin_code: BgpOriginCode::Igp }));
    assert_eq!(single_attribute(&well_known(1, &[1])).attribute, PathAttribute::Origin(OriginAttribute { origin_code: BgpOriginCode::Egp }));
}

#[test]
fn new_as_path_attribute_test() {
    let input = well_known(2, &[1, 2, 0x01, 0xF4, 0x01, 0xF4, 2, 1, 0xFE, 0xBB]);
    assert_eq!(
        single_attribute(&input).attribute,
        PathAttribute::AsPath(AsPathAttribute { as_path: vec![AsPathSegment::AsSet(vec![500, 500]), AsPathSegment::AsSequence(vec![65211])] })
    );
}

#[test]
fn new_next_hop_attribute_test() {
    assert_eq!(single_attribute(&well_known(3, &[192, 168, 0, 15])).attribute, PathAttribute::NextHop(NextHopAttribute { next_hop: 0xC0A8_000F }));
    assert_eq!(single_attribute(&well_known(3, &[192, 168, 0, 33])).attribute, PathAttribute::NextHop(NextHopAttribute { next_hop: 0xC0A8_0021 }));
}

#[test]
fn new_multi_exit_disc_attribute_test() {
    let input = [0x80u8, 4, 4, 0, 0, 0, 0];
    assert_eq!(single_attribute(&input).attribute, PathAttribute::MultiExitDisc(MultiExitDiscAttribute { metric: 0 }));
}

#[test]
fn new_local_pref_attribute_test() {
    assert_eq!(single_attribute(&well_known(5, &[0, 0, 0, 100])).attribute, PathAttribute::LocalPref(LocalPrefAttribute { preference: 100 }));
}

#[test]
fn new_atomic_aggregate_attribute_test() {
    assert_eq!(single_attribute(&well_known(6, &[])).attribute, PathAttribute::AtomicAggregate);
}

#[test]
fn new_aggregator_attribute_test() {
    let input = [0xC0u8, 7, 6, 0xFE, 0xBA, 192, 168, 0, 10];
    assert_eq!(
        single_attribute(&input).attribute,
        PathAttribute::Aggregator(AggregatorAttribute { aggregator_as: 65210, aggregator_id: 0xC0A8_000A })
    );
}

#[test]
fn decode_keepalive_scenario() {
    let input = [0xFFu8, 0xFF, 0xFF, 0xFF, 0xFF, 0xFF, 0xFF, 0xFF, 0xFF, 0xFF, 0xFF, 0xFF, 0xFF, 0xFF, 0xFF, 0xFF, 0x00, 0x13, 0x04];
    assert_eq!(done(&input), (0, BgpMessage::Keepalive));
}

#[test]
fn decode_bad_length_scenario() {
    let input = message(18, 4, &[]);
    assert_eq!(error(&input), DecodeError::BadMessageLength(18));
}

#[test]
fn decode_notification_scenario() {
    let input = message(21, 3, &[0x02, 0x02]);
    assert_eq!(
        done(&input),
        (0, BgpMessage::Notification(BgpNotificationMessage { error_code: 2, error_subcode: 2, data: vec![] }))
    );
}

#[test]
fn decode_leaves_following_octets() {
    let mut input = message(19, 4, &[]);
    input.extend_from_slice(&[1, 2, 3]);
    match parse_bgp_message(&input) {
        Decoded::Done(rest, m) => {
            assert_eq!(rest, &[1u8, 2, 3][..]);
            assert_eq!(m, BgpMessage::Keepalive);
        },
        _ => panic!("not decoded"),
    }
}

#[test]
fn decode_incomplete_input() {
    assert!(matches!(parse_bgp_message(&[0xFF; 10]), Decoded::Incomplete(9)));
    assert!(matches!(parse_bgp_message(&[]), Decoded::Incomplete(19)));
    let input = open1();
    assert!(matches!(parse_bgp_message(&input[..25]), Decoded::Incomplete(4)));
}

#[test]
fn decode_header_errors() {
    let mut bad_marker = message(19, 4, &[]);
    bad_marker[3] = 0;
    assert_eq!(error(&bad_marker), DecodeError::ConnectionNotSynchronized);
    assert_eq!(error(&[0xFF, 0x00]), DecodeError::ConnectionNotSynchronized);
    assert_eq!(error(&message(4097, 4, &[])), DecodeError::BadMessageLength(4097));
    assert_eq!(error(&message(19, 9, &[])), DecodeError::BadMessageType(9));
    assert_eq!(error(&message(19, 5, &[])), DecodeError::BadMessageType(5));
    assert_eq!(error(&message(20, 3, &[2])), DecodeError::BadMessageLength(20));
    assert_eq!(error(&message(22, 2, &[0, 0, 0])), DecodeError::BadMessageLength(22));
}

#[test]
fn decode_open_errors() {
    let mut v = open1();
    v[19] = 3;
    assert_eq!(error(&v), DecodeError::UnsupportedVersionNumber(3));
    let mut v = open1();
    v[22] = 0;
    v[23] = 2;
    assert_eq!(error(&v), DecodeError::UnacceptableHoldTime(2));
    let mut v = open1();
    v[24] = 0xE0;
    assert_eq!(error(&v), DecodeError::BadBgpIdentifier);
    let mut v = open1();
    v[28] = 1;
    assert_eq!(error(&v), DecodeError::BadMessageLength(29));
    let body = [0x04, 0xFE, 0x09, 0x00, 0x00, 0xC0, 0xA8, 0x00, 0x0F, 2, 0x01, 0x00];
    assert_eq!(error(&message(31, 1, &body)), DecodeError::UnsupportedOptionalParameter);
    let body = [0x04, 0xFE, 0x09, 0x00, 0x00, 0xC0, 0xA8, 0x00, 0x0F, 8, 0x02, 0x06, 0x80, 0x00, 0x02, 0x00, 0x41, 0x00];
    assert_eq!(error(&message(37, 1, &body)), DecodeError::UnsupportedCapability(vec![0x80, 0x41]));
}

#[test]
fn decode_update_errors() {
    assert_eq!(parse_bgp_update(&[0, 9, 0, 0]), Err(DecodeError::MalformedAttributeList));
    assert_eq!(parse_bgp_update(&[0, 0, 0, 9]), Err(DecodeError::MalformedAttributeList));
    assert_eq!(parse_bgp_update(&[0, 0, 0, 0, 33, 1, 2, 3, 4, 5]), Err(DecodeError::InvalidNetworkField));
    assert_eq!(parse_bgp_prefixes(&[24, 10, 0]), Err(DecodeError::InvalidNetworkField));
    assert_eq!(parse_bgp_path_attributes(&[0x40, 1]), Err(DecodeError::MalformedAttributeList));
    assert_eq!(parse_bgp_path_attributes(&[0x40, 1, 2, 0]), Err(DecodeError::MalformedAttributeList));
    assert_eq!(parse_bgp_path_attributes(&[0x41, 1, 1, 0]), Err(DecodeError::AttributeFlagsError(1, 0x41)));
    assert_eq!(parse_bgp_path_attributes(&[0x80, 1, 1, 0]), Err(DecodeError::AttributeFlagsError(1, 0x80)));
    assert_eq!(parse_bgp_path_attributes(&[0x40, 3, 3, 1, 2, 3]), Err(DecodeError::AttributeLengthError(3, 3)));
    assert_eq!(parse_bgp_path_attributes(&[0x40, 1, 1, 3]), Err(DecodeError::InvalidOriginAttribute(3)));
    assert_eq!(parse_bgp_path_attributes(&[0x40, 9, 0]), Err(DecodeError::UnrecognizedWellKnownAttribute(9)));
    assert_eq!(parse_bgp_path_attributes(&[0xC0, 9, 0]), Err(DecodeError::OptionalAttributeError));
    assert_eq!(parse_as_path_segments(&[3, 1, 0, 1]), Err(DecodeError::MalformedAsPath));
    assert_eq!(parse_as_path_segments(&[2, 2, 0, 1]), Err(DecodeError::MalformedAsPath));
}

#[test]
fn decode_extended_length_attribute() {
    let input = [0x50u8, 2, 0, 4, 2, 1, 0x01, 0xF4];
    let a = single_attribute(&input);
    assert!(a.flags.extended_length);
    assert_eq!(a.attribute, PathAttribute::AsPath(AsPathAttribute { as_path: vec![AsPathSegment::AsSequence(vec![500])] }));
}

#[test]
fn decode_capability_framing_error() {
    assert_eq!(parse_capability_parameters(&[0x01, 0x04, 0x00], 40), Err(DecodeError::BadMessageLength(40)));
    assert_eq!(parse_optional_parameters(&[0x02], 40), Err(DecodeError::BadMessageLength(40)));
}

#[test]
fn decode_update_attribute_rules() {
    // ORIGIN twice.
    let mut attrs = well_known(1, &[0]);
    attrs.extend(well_known(1, &[1]));
    let mut body = vec![0, 0, 0, attrs.len() as u8];
    body.extend(attrs);
    assert_eq!(parse_bgp_update(&body), Err(DecodeError::MalformedAttributeList));

    // NLRI without NEXT_HOP.
    let mut attrs = well_known(1, &[0]);
    attrs.extend(well_known(2, &[]));
    let mut body = vec![0, 0, 0, attrs.len() as u8];
    body.extend(attrs.clone());
    body.extend_from_slice(&[8, 10]);
    assert_eq!(parse_bgp_update(&body), Err(DecodeError::MissingWellKnownAttribute(3)));

    // The same attributes without NLRI are accepted.
    let mut body = vec![0, 0, 0, attrs.len() as u8];
    body.extend(attrs);
    let m = parse_bgp_update(&body).unwrap();
    assert!(m.nlri.is_empty());
    assert_eq!(m.path_attributes[1].attribute, PathAttribute::AsPath(AsPathAttribute { as_path: vec![] }));
}
