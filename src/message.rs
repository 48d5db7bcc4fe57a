//! BGP-4 messages as decoded values, and their mathematical views.

use vstd::prelude::*;

verus! {

/// The flags of a path attribute: the four high bits of its first octet.
#[derive(Debug, Clone, Copy, PartialEq, Eq, Structural)]
pub struct BgpPathAttributeFlags {
    pub optional: bool,
    pub transitive: bool,
    pub partial: bool,
    pub extended_length: bool,
}

#[derive(Debug, Clone, Copy, PartialEq, Eq, Structural)]
pub enum BgpOriginCode {
    Igp,
    Egp,
    Incomplete,
}

impl BgpOriginCode {
    /// The origin of a code of the ORIGIN attribute; codes above 2 have none.
    pub fn from_code(code: u8) -> (r: Option<BgpOriginCode>)
        ensures
            r == origin_of(code),
    {
        match code {
            0 => Some(BgpOriginCode::Igp),
            1 => Some(BgpOriginCode::Egp),
            2 => Some(BgpOriginCode::Incomplete),
            _ => None,
        }
    }
}

pub open spec fn origin_of(code: u8) -> Option<BgpOriginCode> {
    if code == 0 {
        Some(BgpOriginCode::Igp)
    } else if code == 1 {
        Some(BgpOriginCode::Egp)
    } else if code == 2 {
        Some(BgpOriginCode::Incomplete)
    } else {
        None
    }
}

#[derive(Debug, Clone, Copy, PartialEq, Eq, Structural)]
pub struct OriginAttribute {
    pub origin_code: BgpOriginCode,
}

/// An IPv4 address, as the big-endian integer of its four octets.
#[derive(Debug, Clone, Copy, PartialEq, Eq, Structural)]
pub struct NextHopAttribute {
    pub next_hop: u32,
}

#[derive(Debug, Clone, Copy, PartialEq, Eq, Structural)]
pub struct MultiExitDiscAttribute {
    pub metric: u32,
}

#[derive(Debug, Clone, Copy, PartialEq, Eq, Structural)]
pub struct LocalPrefAttribute {
    pub preference: u32,
}

#[derive(Debug, Clone, Copy, PartialEq, Eq, Structural)]
pub struct AggregatorAttribute {
    pub aggregator_as: u16,
    /// An IPv4 address, as the big-endian integer of its four octets.
    pub aggregator_id: u32,
}

#[derive(Debug, PartialEq, Eq)]
pub enum AsPathSegment {
    AsSet(Vec<u16>),
    AsSequence(Vec<u16>),
}

pub enum AsPathSegmentView {
    AsSet(Seq<u16>),
    AsSequence(Seq<u16>),
}

impl View for AsPathSegment {
    type V = AsPathSegmentView;

    open spec fn view(&self) -> AsPathSegmentView {
        match self {
            AsPathSegment::AsSet(v) => AsPathSegmentView::AsSet(v@),
            AsPathSegment::AsSequence(v) => AsPathSegmentView::AsSequence(v@),
        }
    }
}

#[derive(Debug, PartialEq, Eq)]
pub struct AsPathAttribute {
    pub as_path: Vec<AsPathSegment>,
}

/// The views of the segments of a list.
pub open spec fn segments_view(s: Seq<AsPathSegment>) -> Seq<AsPathSegmentView> {
    s.map_values(|x: AsPathSegment| x@)
}

#[derive(Debug, PartialEq, Eq)]
pub enum PathAttribute {
    Origin(OriginAttribute),
    AsPath(AsPathAttribute),
    NextHop(NextHopAttribute),
    MultiExitDisc(MultiExitDiscAttribute),
    LocalPref(LocalPrefAttribute),
    AtomicAggregate,
    Aggregator(AggregatorAttribute),
}

pub enum PathAttributeView {
    Origin(OriginAttribute),
    AsPath(Seq<AsPathSegmentView>),
    NextHop(NextHopAttribute),
    MultiExitDisc(MultiExitDiscAttribute),
    LocalPref(LocalPrefAttribute),
    AtomicAggregate,
    Aggregator(AggregatorAttribute),
}

impl View for PathAttribute {
    type V = PathAttributeView;

    open spec fn view(&self) -> PathAttributeView {
        match self {
            PathAttribute::Origin(a) => PathAttributeView::Origin(*a),
            PathAttribute::AsPath(a) => PathAttributeView::AsPath(segments_view(a.as_path@)),
            PathAttribute::NextHop(a) => PathAttributeView::NextHop(*a),
            PathAttribute::MultiExitDisc(a) => PathAttributeView::MultiExitDisc(*a),
            PathAttribute::LocalPref(a) => PathAttributeView::LocalPref(*a),
            PathAttribute::AtomicAggregate => PathAttributeView::AtomicAggregate,
            PathAttribute::Aggregator(a) => PathAttributeView::Aggregator(*a),
        }
    }
}

#[derive(Debug, PartialEq, Eq)]
pub struct BgpPathAttribute {
    pub flags: BgpPathAttributeFlags,
    pub attribute: PathAttribute,
}

impl View for BgpPathAttribute {
    type V = (BgpPathAttributeFlags, PathAttributeView);

    open spec fn view(&self) -> (BgpPathAttributeFlags, PathAttributeView) {
        (self.flags, self.attribute@)
    }
}

pub open spec fn attributes_view(s: Seq<BgpPathAttribute>) -> Seq<(BgpPathAttributeFlags, PathAttributeView)> {
    s.map_values(|x: BgpPathAttribute| x@)
}

/// A route prefix of an UPDATE: its length in bits, and its octets padded
/// with zero octets to four, as a big-endian integer.
#[derive(Debug, Clone, Copy, PartialEq, Eq, Structural)]
pub struct Ipv4Prefix {
    pub prefix: u32,
    pub length: u8,
}

#[derive(Debug, Clone, Copy, PartialEq, Eq, Structural)]
pub struct MultiprotocolExtensionsCapability {
    pub afi: u16,
    pub safi: u8,
}

#[derive(Debug, Clone, Copy, PartialEq, Eq, Structural)]
pub enum CapabilityParameter {
    MultiprotocolExtensions(MultiprotocolExtensionsCapability),
    RouteRefresh,
}

#[derive(Debug, PartialEq, Eq)]
pub enum OptionalParameter {
    Capability(Vec<CapabilityParameter>),
}

impl View for OptionalParameter {
    type V = Seq<CapabilityParameter>;

    open spec fn view(&self) -> Seq<CapabilityParameter> {
        match self {
            OptionalParameter::Capability(v) => v@,
        }
    }
}

pub open spec fn parameters_view(s: Seq<OptionalParameter>) -> Seq<Seq<CapabilityParameter>> {
    s.map_values(|x: OptionalParameter| x@)
}

#[derive(Debug, PartialEq, Eq)]
pub struct BgpOpenMessage {
    pub version: u8,
    pub my_autonomous_system: u16,
    pub hold_time: u16,
    pub bgp_identifier: u32,
    pub optional_parameters: Vec<OptionalParameter>,
}

pub struct BgpOpenMessageView {
    pub version: u8,
    pub my_autonomous_system: u16,
    pub hold_time: u16,
    pub bgp_identifier: u32,
    pub optional_parameters: Seq<Seq<CapabilityParameter>>,
}

impl View for BgpOpenMessage {
    type V = BgpOpenMessageView;

    open spec fn view(&self) -> BgpOpenMessageView {
        BgpOpenMessageView {
            version: self.version,
            my_autonomous_system: self.my_autonomous_system,
            hold_time: self.hold_time,
            bgp_identifier: self.bgp_identifier,
            optional_parameters: parameters_view(self.optional_parameters@),
        }
    }
}

#[derive(Debug, PartialEq, Eq)]
pub struct BgpUpdateMessage {
    pub withdrawn_routes: Vec<Ipv4Prefix>,
    pub path_attributes: Vec<BgpPathAttribute>,
    pub nlri: Vec<Ipv4Prefix>,
}

pub struct BgpUpdateMessageView {
    pub withdrawn_routes: Seq<Ipv4Prefix>,
    pub path_attributes: Seq<(BgpPathAttributeFlags, PathAttributeView)>,
    pub nlri: Seq<Ipv4Prefix>,
}

impl View for BgpUpdateMessage {
    type V = BgpUpdateMessageView;

    open spec fn view(&self) -> BgpUpdateMessageView {
        BgpUpdateMessageView {
            withdrawn_routes: self.withdrawn_routes@,
            path_attributes: attributes_view(self.path_attributes@),
            nlri: self.nlri@,
        }
    }
}

#[derive(Debug, PartialEq, Eq)]
pub struct BgpNotificationMessage {
    pub error_code: u8,
    pub error_subcode: u8,
    pub data: Vec<u8>,
}

pub struct BgpNotificationMessageView {
    pub error_code: u8,
    pub error_subcode: u8,
    pub data: Seq<u8>,
}

impl View for BgpNotificationMessage {
    type V = BgpNotificationMessageView;

    open spec fn view(&self) -> BgpNotificationMessageView {
        BgpNotificationMessageView {
            error_code: self.error_code,
            error_subcode: self.error_subcode,
            data: self.data@,
        }
    }
}

#[derive(Debug, PartialEq, Eq)]
pub enum BgpMessage {
    Open(BgpOpenMessage),
    Update(BgpUpdateMessage),
    Notification(BgpNotificationMessage),
    Keepalive,
}

pub enum BgpMessageView {
    Open(BgpOpenMessageView),
    Update(BgpUpdateMessageView),
    Notification(BgpNotificationMessageView),
    Keepalive,
}

impl View for BgpMessage {
    type V = BgpMessageView;

    open spec fn view(&self) -> BgpMessageView {
        match self {
            BgpMessage::Open(m) => BgpMessageView::Open(m@),
            BgpMessage::Update(m) => BgpMessageView::Update(m@),
            BgpMessage::Notification(m) => BgpMessageView::Notification(m@),
            BgpMessage::Keepalive => BgpMessageView::Keepalive,
        }
    }
}

/// Why a message could not be decoded, after RFC 4271's error subcodes.
#[derive(Debug, PartialEq, Eq)]
pub enum DecodeError {
    ConnectionNotSynchronized,
    BadMessageLength(u16),
    BadMessageType(u8),
    UnsupportedVersionNumber(u8),
    /// Not given by the decoder: which peer AS is acceptable is for the
    /// caller's configuration to decide.
    BadPeerAs,
    BadBgpIdentifier,
    UnsupportedOptionalParameter,
    UnacceptableHoldTime(u16),
    /// The codes of the capabilities that were not recognised.
    UnsupportedCapability(Vec<u8>),
    MalformedAttributeList,
    UnrecognizedWellKnownAttribute(u8),
    MissingWellKnownAttribute(u8),
    /// The attribute's type code and its flags octet.
    AttributeFlagsError(u8, u8),
    /// The attribute's type code and its length.
    AttributeLengthError(u8, u16),
    InvalidOriginAttribute(u8),
    /// Not given by the decoder: whether a next hop is usable depends on
    /// the caller's view of the network.
    InvalidNextHopAttribute(u32),
    OptionalAttributeError,
    InvalidNetworkField,
    MalformedAsPath,
}

pub enum DecodeErrorView {
    ConnectionNotSynchronized,
    BadMessageLength(u16),
    BadMessageType(u8),
    UnsupportedVersionNumber(u8),
    BadPeerAs,
    BadBgpIdentifier,
    UnsupportedOptionalParameter,
    UnacceptableHoldTime(u16),
    UnsupportedCapability(Seq<u8>),
    MalformedAttributeList,
    UnrecognizedWellKnownAttribute(u8),
    MissingWellKnownAttribute(u8),
    AttributeFlagsError(u8, u8),
    AttributeLengthError(u8, u16),
    InvalidOriginAttribute(u8),
    InvalidNextHopAttribute(u32),
    OptionalAttributeError,
    InvalidNetworkField,
    MalformedAsPath,
}

impl View for DecodeError {
    type V = DecodeErrorView;

    open spec fn view(&self) -> DecodeErrorView {
        match self {
            DecodeError::ConnectionNotSynchronized => DecodeErrorView::ConnectionNotSynchronized,
            DecodeError::BadMessageLength(l) => DecodeErrorView::BadMessageLength(*l),
            DecodeError::BadMessageType(t) => DecodeErrorView::BadMessageType(*t),
            DecodeError::UnsupportedVersionNumber(v) => DecodeErrorView::UnsupportedVersionNumber(*v),
            DecodeError::BadPeerAs => DecodeErrorView::BadPeerAs,
            DecodeError::BadBgpIdentifier => DecodeErrorView::BadBgpIdentifier,
            DecodeError::UnsupportedOptionalParameter => DecodeErrorView::UnsupportedOptionalParameter,
            DecodeError::UnacceptableHoldTime(h) => DecodeErrorView::UnacceptableHoldTime(*h),
            DecodeError::UnsupportedCapability(c) => DecodeErrorView::UnsupportedCapability(c@),
            DecodeError::MalformedAttributeList => DecodeErrorView::MalformedAttributeList,
            DecodeError::UnrecognizedWellKnownAttribute(c) => DecodeErrorView::UnrecognizedWellKnownAttribute(*c),
            DecodeError::MissingWellKnownAttribute(c) => DecodeErrorView::MissingWellKnownAttribute(*c),
            DecodeError::AttributeFlagsError(c, f) => DecodeErrorView::AttributeFlagsError(*c, *f),
            DecodeError::AttributeLengthError(c, l) => DecodeErrorView::AttributeLengthError(*c, *l),
            DecodeError::InvalidOriginAttribute(v) => DecodeErrorView::InvalidOriginAttribute(*v),
            DecodeError::InvalidNextHopAttribute(v) => DecodeErrorView::InvalidNextHopAttribute(*v),
            DecodeError::OptionalAttributeError => DecodeErrorView::OptionalAttributeError,
            DecodeError::InvalidNetworkField => DecodeErrorView::InvalidNetworkField,
            DecodeError::MalformedAsPath => DecodeErrorView::MalformedAsPath,
        }
    }
}

} // verus!
