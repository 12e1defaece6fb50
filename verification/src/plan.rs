//! Flow planning: which transport path a flow takes, and whether it keeps QUIC.
//!
//! Everything here is a total function of its value arguments. Live state, such
//! as whether a destination is being steered, is resolved by the caller.

use vstd::prelude::*;
#[allow(unused_imports)]
use crate::text;

use crate::l3::packet::Transport;
use crate::text::push_decimal;
use crate::text::push_text;

verus! {

/// Smallest datagram a QUIC path must carry (RFC 9000).
pub const MIN_QUIC_MTU: u16 = 1200;

/// Port shared by HTTPS and QUIC.
pub const HTTPS_PORT: u16 = 443;

/// Port of cleartext DNS.
pub const DNS_PORT: u16 = 53;

/// Minimum dual-stack tunnel MTU: RFC 8200's floor for an IPv6 link.
pub const MIN_IPV6_MTU: u16 = 1280;

/// A link MTU that can carry IPv6. Its view is the number of bytes.
#[derive(Clone, Copy, Debug, PartialEq, Eq, PartialOrd, Ord, Structural)]
pub struct Mtu(u16);

#[derive(Clone, Copy, Debug, PartialEq, Eq, Structural)]
pub enum MtuError {
    BelowMinimum(u16),
}

impl View for Mtu {
    type V = u16;

    closed spec fn view(&self) -> u16 {
        self.0
    }
}

impl Mtu {
    #[verifier::type_invariant]
    spec fn carries_ipv6(self) -> bool {
        self.0 >= MIN_IPV6_MTU
    }

    pub fn new(bytes: u16) -> (r: Result<Self, MtuError>)
        ensures
            match r {
                Ok(mtu) => bytes >= MIN_IPV6_MTU && mtu@ == bytes,
                Err(e) => bytes < MIN_IPV6_MTU && e == MtuError::BelowMinimum(bytes),
            },
    {
        if bytes >= MIN_IPV6_MTU {
            Ok(Mtu(bytes))
        } else {
            Err(MtuError::BelowMinimum(bytes))
        }
    }

    pub fn get(self) -> (bytes: u16)
        ensures
            bytes == self@,
            bytes >= MIN_IPV6_MTU,
    {
        proof {
            use_type_invariant(&self);
        }
        self.0
    }

    /// Whether the MTU can carry QUIC's minimum datagram.
    pub fn admits_quic(self) -> (admits: bool)
        ensures
            admits == (self@ >= MIN_QUIC_MTU),
            admits,
    {
        proof {
            use_type_invariant(&self);
        }
        self.quic_budget().is_some()
    }

    /// Returns the QUIC datagram budget afforded by this MTU.
    pub fn quic_budget(self) -> (budget: Option<QuicBudget>)
        ensures
            budget is Some <==> self@ >= MIN_QUIC_MTU,
            budget matches Some(b) ==> b@ == self@,
    {
        QuicBudget::new(self.0)
    }
}

/// Two MTUs of the same size are the same value.
pub proof fn lemma_mtu_is_its_size(a: Mtu, b: Mtu)
    ensures
        a@ == b@ ==> a == b,
{
}

/// Validated datagram ceiling for QUIC. Its view is the number of bytes.
///
/// This is separate from [`Mtu`]: RFC 9000 requires 1200 bytes for a QUIC
/// datagram, while RFC 8200 requires 1280 bytes for an IPv6 link. A flow path
/// may therefore have a QUIC-valid ceiling below the IPv6 link minimum.
#[derive(Clone, Copy, Debug, PartialEq, Eq, Structural)]
pub struct QuicBudget(u16);

impl View for QuicBudget {
    type V = u16;

    closed spec fn view(&self) -> u16 {
        self.0
    }
}

impl QuicBudget {
    #[verifier::type_invariant]
    spec fn clears_the_floor(self) -> bool {
        self.0 >= MIN_QUIC_MTU
    }

    /// Validates the QUIC minimum datagram size.
    pub fn new(bytes: u16) -> (r: Option<Self>)
        ensures
            r is Some <==> bytes >= MIN_QUIC_MTU,
            r matches Some(b) ==> b@ == bytes,
    {
        if bytes >= MIN_QUIC_MTU {
            Some(QuicBudget(bytes))
        } else {
            None
        }
    }

    pub fn get(self) -> (bytes: u16)
        ensures
            bytes == self@,
            bytes >= MIN_QUIC_MTU,
    {
        proof {
            use_type_invariant(&self);
        }
        self.0
    }
}

/// The layer an egress accepts.
#[derive(Clone, Copy, Debug, PartialEq, Eq, Structural)]
pub enum Accepts {
    IpPackets,
    Flows,
}

/// How faithfully datagrams cross a path, weakest first.
#[derive(Clone, Copy, Debug, PartialEq, Eq, PartialOrd, Ord, Structural)]
pub enum DatagramFidelity {
    Absent,
    Emulated,
    Native,
}

impl DatagramFidelity {
    /// Position in the order from weakest to strongest.
    pub open spec fn rank(self) -> int {
        match self {
            DatagramFidelity::Absent => 0,
            DatagramFidelity::Emulated => 1,
            DatagramFidelity::Native => 2,
        }
    }

    /// The weaker of two fidelities.
    pub open spec fn weaker_of(self, other: Self) -> Self {
        if self.rank() <= other.rank() {
            self
        } else {
            other
        }
    }

    fn weaker(self, other: Self) -> (w: Self)
        ensures
            w == self.weaker_of(other),
    {
        match (self, other) {
            (DatagramFidelity::Absent, _) => self,
            (_, DatagramFidelity::Absent) => other,
            (DatagramFidelity::Emulated, _) => self,
            (DatagramFidelity::Native, _) => other,
        }
    }
}

/// Live properties reported by one egress.
///
/// The accepted layer is derived from the egress implementation variant and is
/// checked where implementations are chained, so this claim cannot disagree
/// with the implementation that supplies it.
#[derive(Clone, Copy, Debug, PartialEq, Eq, Structural)]
pub struct PathProperties {
    pub datagram_fidelity: DatagramFidelity,
    pub overhead_bytes: u16,
    pub max_datagram_size: Option<u16>,
    pub preserves_ecn: bool,
    pub nat_behavior: NatBehavior,
}

/// RFC 4787 NAT or UDP-relay mapping behavior, weakest first.
#[derive(Clone, Copy, Debug, PartialEq, Eq, PartialOrd, Ord, Structural)]
pub enum NatBehavior {
    AddressAndPortDependent,
    AddressDependent,
    EndpointIndependent,
}

impl NatBehavior {
    /// Position in the order from weakest to strongest.
    pub open spec fn rank(self) -> int {
        match self {
            NatBehavior::AddressAndPortDependent => 0,
            NatBehavior::AddressDependent => 1,
            NatBehavior::EndpointIndependent => 2,
        }
    }

    /// The weaker of two behaviors.
    pub open spec fn weaker_of(self, other: Self) -> Self {
        if self.rank() <= other.rank() {
            self
        } else {
            other
        }
    }

    fn weaker(self, other: Self) -> (w: Self)
        ensures
            w == self.weaker_of(other),
    {
        match (self, other) {
            (NatBehavior::AddressAndPortDependent, _) => self,
            (_, NatBehavior::AddressAndPortDependent) => other,
            (NatBehavior::AddressDependent, _) => self,
            (NatBehavior::EndpointIndependent, _) => other,
        }
    }
}

#[derive(Clone, Copy, Debug, PartialEq, Eq, Structural)]
pub enum ChainError {
    MixedLayers,
    OverheadOverflow,
}

/// The tighter of two optional datagram ceilings; no ceiling is the loosest.
pub open spec fn tighter_ceiling(a: Option<u16>, b: Option<u16>) -> Option<u16> {
    match (a, b) {
        (Some(x), Some(y)) => Some(if x <= y { x } else { y }),
        (Some(x), None) => Some(x),
        (None, y) => y,
    }
}

/// Two claims composed, the weaker value in each dimension and the overheads
/// added. An error when the sum of the overheads does not fit its field.
pub open spec fn chained(first: PathProperties, next: PathProperties) -> Result<PathProperties, ChainError> {
    if first.overhead_bytes + next.overhead_bytes > u16::MAX {
        Err(ChainError::OverheadOverflow)
    } else {
        Ok(PathProperties {
            datagram_fidelity: first.datagram_fidelity.weaker_of(next.datagram_fidelity),
            overhead_bytes: (first.overhead_bytes + next.overhead_bytes) as u16,
            max_datagram_size: tighter_ceiling(first.max_datagram_size, next.max_datagram_size),
            preserves_ecn: first.preserves_ecn && next.preserves_ecn,
            nat_behavior: first.nat_behavior.weaker_of(next.nat_behavior),
        })
    }
}

impl PathProperties {
    /// Composes two property claims using the weaker value in each dimension.
    pub fn chain(self, next: Self) -> (r: Result<Self, ChainError>)
        ensures
            r == chained(self, next),
    {
        let overhead_bytes: u16 = match self.overhead_bytes.checked_add(next.overhead_bytes) {
            Some(sum) => sum,
            None => return Err(ChainError::OverheadOverflow),
        };
        let max_datagram_size: Option<u16> = match (self.max_datagram_size, next.max_datagram_size) {
            (Some(left), Some(right)) => Some(if left <= right { left } else { right }),
            (Some(left), None) => Some(left),
            (None, size) => size,
        };
        Ok(PathProperties {
            datagram_fidelity: self.datagram_fidelity.weaker(next.datagram_fidelity),
            overhead_bytes,
            max_datagram_size,
            preserves_ecn: self.preserves_ecn && next.preserves_ecn,
            nat_behavior: self.nat_behavior.weaker(next.nat_behavior),
        })
    }
}

/// Chaining never improves a claim: in no dimension is the composition better
/// than either part, and its overhead is no smaller.
pub proof fn chain_uses_the_weakest_property(a: PathProperties, b: PathProperties)
    requires
        chained(a, b) is Ok,
    ensures
        ({
            let c = chained(a, b)->Ok_0;
            &&& c.datagram_fidelity.rank() <= a.datagram_fidelity.rank()
            &&& c.datagram_fidelity.rank() <= b.datagram_fidelity.rank()
            &&& c.nat_behavior.rank() <= a.nat_behavior.rank()
            &&& c.nat_behavior.rank() <= b.nat_behavior.rank()
            &&& c.overhead_bytes == a.overhead_bytes + b.overhead_bytes
            &&& c.preserves_ecn ==> a.preserves_ecn && b.preserves_ecn
            &&& a.max_datagram_size matches Some(s) ==> c.max_datagram_size is Some
                && c.max_datagram_size->Some_0 <= s
            &&& b.max_datagram_size matches Some(s) ==> c.max_datagram_size is Some
                && c.max_datagram_size->Some_0 <= s
        }),
{
}

/// The order in which claims are chained does not matter.
pub proof fn chain_is_commutative_and_associative(a: PathProperties, b: PathProperties, c: PathProperties)
    ensures
        chained(a, b) == chained(b, a),
        (chained(a, b) is Ok && chained(b, c) is Ok) ==> chained(chained(a, b)->Ok_0, c) == chained(
            a,
            chained(b, c)->Ok_0,
        ),
{
}

#[derive(Clone, Copy, Debug, PartialEq, Eq, Structural)]
pub enum FilterPolicy {
    PassThrough,
    InspectHttp,
}

/// Whether this flow requires local termination for inspection.
///
/// [`FilterPolicy`] enables inspection for the session; this value identifies
/// the individual flow. It is computed from resolver state by the caller so
/// [`plan_flow`] remains a total function of its value arguments.
#[derive(Clone, Copy, Debug, PartialEq, Eq, Structural)]
pub enum Inspection {
    /// TCP flow matching an inspected address and interception port.
    Candidate,
    /// Flow outside the inspection set.
    Excluded,
}

impl Inspection {
    /// All possible verdicts in index order.
    pub const ALL: [Self; 2] = [Inspection::Candidate, Inspection::Excluded];

    /// Index into [`Self::ALL`].
    pub fn index(self) -> (i: usize)
        ensures
            i < 2,
            Self::ALL@[i as int] == self,
    {
        match self {
            Inspection::Candidate => 0,
            Inspection::Excluded => 1,
        }
    }
}

/// Whether this session answers DNS locally.
///
/// Independent of [`FilterPolicy`], because DNS enforcement also covers
/// applications that cannot be intercepted at TLS.
#[derive(Clone, Copy, Debug, PartialEq, Eq, Structural)]
pub enum DnsPolicy {
    /// Answer queries to [`DNS_PORT`] locally.
    Intercept,
    /// Forward queries as ordinary datagrams.
    Forward,
}

/// Transport path selected for a flow.
///
/// Only a packet path has an inner packet MTU. Local termination re-originates
/// a byte stream and uses stream-specific sizing instead.
#[derive(Clone, Copy, Debug, PartialEq, Eq, Structural)]
pub enum TransportPath {
    PacketFastPath { inner_mtu: Mtu },
    LocalTermination,
}

#[derive(Clone, Copy, Debug, PartialEq, Eq, Structural)]
pub enum QuicPolicy {
    PassThrough,
    SteerToHttp2(SteeringReason),
}

#[derive(Clone, Copy, Debug, PartialEq, Eq, Structural)]
pub enum SteeringReason {
    InspectionRequired,
    DatagramFidelity,
    MtuBelowMinimum,
}

#[derive(Clone, Copy, Debug, PartialEq, Eq, Structural)]
pub struct FlowPlan {
    pub transport: TransportPath,
    pub quic: QuicPolicy,
}

#[derive(Clone, Copy, Debug, PartialEq, Eq, Structural)]
pub enum PlanError {
    OverheadExceedsPathMtu,
    InnerMtu(MtuError),
}

/// The result of re-planning a live flow after an egress reports new path
/// properties. Established flows are never dropped silently: a downgrade yields
/// `Resteer`, and `Teardown` is reserved for a change no live flow can survive.
///
/// `Resteer` carries the plan the flow must adopt, so no caller has to derive
/// one again and none can silently keep the stale one.
#[derive(Clone, Copy, Debug, PartialEq, Eq, Structural)]
pub enum Replan {
    Unchanged,
    Resteer { reason: SteeringReason, plan: FlowPlan },
    Teardown,
}

#[derive(Clone, Copy, Debug, PartialEq, Eq, Structural)]
pub enum IngressAction {
    Reassemble,
    /// DNS query answered locally without opening a flow.
    ResolveDns,
    /// QUIC attempt dropped while steering an inspected host to HTTP/2.
    DropSteered,
    ForwardPacket(FlowPlan),
    OpenStream(FlowPlan),
    OpenDatagram(FlowPlan),
    HandleIcmp(FlowPlan),
    DropUnsupported,
}

/// Whether transient UDP/443 steering applies.
///
/// The caller resolves this live-state lookup; [`admission`] only classifies
/// values.
#[derive(Clone, Copy, Debug, PartialEq, Eq, Structural)]
pub enum Backstop {
    /// No active steering window applies.
    Lapsed,
    /// The destination is actively steered.
    Active,
}

/// Ingress decision before or after flow planning.
#[derive(Clone, Copy, Debug, PartialEq, Eq, Structural)]
pub enum Admission {
    /// Decision independent of egress properties.
    Settled(IngressAction),
    /// Carried protocol awaiting [`route_planned`].
    Planned,
}

/// What a packet of this transport is admitted to, before any plan.
pub open spec fn admitted(transport: Transport, dns: DnsPolicy, backstop: Backstop) -> Admission {
    match transport {
        Transport::Fragment => Admission::Settled(IngressAction::Reassemble),
        Transport::Other => Admission::Settled(IngressAction::DropUnsupported),
        Transport::Udp { destination_port, .. } => if destination_port == DNS_PORT && dns
            == DnsPolicy::Intercept {
            Admission::Settled(IngressAction::ResolveDns)
        } else if destination_port == HTTPS_PORT && backstop == Backstop::Active {
            Admission::Settled(IngressAction::DropSteered)
        } else {
            Admission::Planned
        },
        Transport::Tcp { .. } => Admission::Planned,
        Transport::Icmp(_) => Admission::Planned,
    }
}

/// Classifies decisions independent of egress path properties.
///
/// Fragments are reassembled, unsupported protocols are dropped, and local
/// DNS is answered before a flow plan is consulted.
pub fn admission(transport: Transport, dns: DnsPolicy, backstop: Backstop) -> (a: Admission)
    ensures
        a == admitted(transport, dns, backstop),
{
    match transport {
        Transport::Fragment => Admission::Settled(IngressAction::Reassemble),
        Transport::Other => Admission::Settled(IngressAction::DropUnsupported),
        Transport::Udp { destination_port, .. } => {
            if destination_port == DNS_PORT && dns == DnsPolicy::Intercept {
                Admission::Settled(IngressAction::ResolveDns)
            } else if destination_port == HTTPS_PORT && backstop == Backstop::Active {
                Admission::Settled(IngressAction::DropSteered)
            } else {
                Admission::Planned
            }
        },
        Transport::Tcp { .. } | Transport::Icmp(_) => Admission::Planned,
    }
}

/// What an existing plan does with a carried packet.
pub open spec fn routed_by_plan(transport: Transport, plan: FlowPlan) -> IngressAction {
    if plan.transport is PacketFastPath {
        IngressAction::ForwardPacket(plan)
    } else {
        match transport {
            Transport::Tcp { .. } => IngressAction::OpenStream(plan),
            Transport::Udp { .. } => IngressAction::OpenDatagram(plan),
            Transport::Icmp(_) => IngressAction::HandleIcmp(plan),
            Transport::Other => IngressAction::DropUnsupported,
            Transport::Fragment => IngressAction::DropUnsupported,
        }
    }
}

/// Routes a carried packet using an existing plan.
///
/// A [`FlowPlan`] proves planning succeeded, so this operation is total.
pub fn route_planned(transport: Transport, plan: FlowPlan) -> (action: IngressAction)
    ensures
        action == routed_by_plan(transport, plan),
{
    if matches!(plan.transport, TransportPath::PacketFastPath { .. }) {
        return IngressAction::ForwardPacket(plan);
    }
    match transport {
        Transport::Tcp { .. } => IngressAction::OpenStream(plan),
        Transport::Udp { .. } => IngressAction::OpenDatagram(plan),
        Transport::Icmp(_) => IngressAction::HandleIcmp(plan),
        // These variants are settled by `admission`.
        Transport::Other | Transport::Fragment => IngressAction::DropUnsupported,
    }
}

/// Whether the session inspects and this flow is one to inspect.
pub open spec fn is_inspected(filter: FilterPolicy, inspection: Inspection) -> bool {
    filter == FilterPolicy::InspectHttp && inspection == Inspection::Candidate
}

/// The QUIC decision: steered for inspection first, then for fidelity, then
/// for a datagram budget that is not shown to clear QUIC's floor.
pub open spec fn quic_decision(inspected: bool, fidelity: DatagramFidelity, budget: Option<u16>) -> QuicPolicy {
    if inspected {
        QuicPolicy::SteerToHttp2(SteeringReason::InspectionRequired)
    } else if fidelity != DatagramFidelity::Native {
        QuicPolicy::SteerToHttp2(SteeringReason::DatagramFidelity)
    } else if budget is None || budget->Some_0 < MIN_QUIC_MTU {
        QuicPolicy::SteerToHttp2(SteeringReason::MtuBelowMinimum)
    } else {
        QuicPolicy::PassThrough
    }
}

/// Whether `r` is the plan of a flow, for the five things it depends on.
///
/// A flow that is not inspected, over an egress that takes packets, travels as
/// packets whose MTU is what the overhead leaves; every other flow terminates
/// locally. QUIC's floor is held against that inner MTU, or against the
/// datagram ceiling that the egress declares.
pub open spec fn is_plan_of(
    r: Result<FlowPlan, PlanError>,
    filter: FilterPolicy,
    inspection: Inspection,
    accepts: Accepts,
    egress: PathProperties,
    path_mtu: u16,
) -> bool {
    let inspected = is_inspected(filter, inspection);
    if !inspected && accepts == Accepts::IpPackets {
        if egress.overhead_bytes > path_mtu {
            r == Err::<FlowPlan, PlanError>(PlanError::OverheadExceedsPathMtu)
        } else {
            let inner = (path_mtu - egress.overhead_bytes) as u16;
            if inner < MIN_IPV6_MTU {
                r == Err::<FlowPlan, PlanError>(PlanError::InnerMtu(MtuError::BelowMinimum(inner)))
            } else {
                &&& r matches Ok(plan)
                &&& plan.transport matches TransportPath::PacketFastPath { inner_mtu }
                &&& inner_mtu@ == inner
                &&& plan.quic == quic_decision(false, egress.datagram_fidelity, Some(inner))
            }
        }
    } else {
        r == Ok::<FlowPlan, PlanError>(
            FlowPlan {
                transport: TransportPath::LocalTermination,
                quic: quic_decision(inspected, egress.datagram_fidelity, egress.max_datagram_size),
            },
        )
    }
}

/// Plans transport and QUIC handling for one flow.
///
/// Inspection forces local termination. An egress that accepts only flows does
/// the same for every flow; other compatible flows use the packet fast path.
pub fn plan_flow(
    filter: FilterPolicy,
    inspection: Inspection,
    accepts: Accepts,
    egress: PathProperties,
    path_mtu: Mtu,
) -> (r: Result<FlowPlan, PlanError>)
    ensures
        is_plan_of(r, filter, inspection, accepts, egress, path_mtu@),
{
    let inspected = filter == FilterPolicy::InspectHttp && inspection == Inspection::Candidate;
    let transport = match (inspected, accepts) {
        (false, Accepts::IpPackets) => {
            let inner: u16 = match path_mtu.get().checked_sub(egress.overhead_bytes) {
                Some(inner) => inner,
                None => return Err(PlanError::OverheadExceedsPathMtu),
            };
            match Mtu::new(inner) {
                Ok(inner_mtu) => TransportPath::PacketFastPath { inner_mtu },
                Err(e) => return Err(PlanError::InnerMtu(e)),
            }
        },
        (true, _) | (false, Accepts::Flows) => TransportPath::LocalTermination,
    };

    // QUIC's floor is measured against the packet path's inner MTU or the
    // terminated egress's declared datagram ceiling.
    let datagram_budget = match transport {
        TransportPath::PacketFastPath { inner_mtu } => inner_mtu.quic_budget(),
        TransportPath::LocalTermination => match egress.max_datagram_size {
            Some(bytes) => QuicBudget::new(bytes),
            None => None,
        },
    };

    // Steer only the flows that need it; unrelated flows retain HTTP/3.
    let quic = if inspected {
        QuicPolicy::SteerToHttp2(SteeringReason::InspectionRequired)
    } else if egress.datagram_fidelity != DatagramFidelity::Native {
        QuicPolicy::SteerToHttp2(SteeringReason::DatagramFidelity)
    } else if datagram_budget.is_none() {
        QuicPolicy::SteerToHttp2(SteeringReason::MtuBelowMinimum)
    } else {
        QuicPolicy::PassThrough
    };
    Ok(FlowPlan { transport, quic })
}

/// Whether the live flow must be torn down whatever the new plan is: the
/// egress no longer takes the layer the flow runs on.
pub open spec fn layer_is_lost(current: FlowPlan, inspected: bool, accepts: Accepts) -> bool {
    match current.transport {
        TransportPath::PacketFastPath { .. } => accepts != Accepts::IpPackets,
        TransportPath::LocalTermination => !inspected && accepts != Accepts::Flows,
    }
}

/// Whether `r` is what becomes of a live flow under new properties.
pub open spec fn is_replan_of(
    r: Result<Replan, PlanError>,
    current: FlowPlan,
    filter: FilterPolicy,
    inspection: Inspection,
    accepts: Accepts,
    next: PathProperties,
    path_mtu: u16,
) -> bool {
    if layer_is_lost(current, is_inspected(filter, inspection), accepts) {
        r == Ok::<Replan, PlanError>(Replan::Teardown)
    } else {
        exists|planned: Result<FlowPlan, PlanError>| #[trigger]
            is_plan_of(planned, filter, inspection, accepts, next, path_mtu) && r == (match planned {
                Err(e) => Err::<Replan, PlanError>(e),
                Ok(plan) => Ok(
                    if plan.transport is PacketFastPath != current.transport is PacketFastPath {
                        Replan::Teardown
                    } else {
                        match (current.quic, plan.quic) {
                            (QuicPolicy::PassThrough, QuicPolicy::SteerToHttp2(reason)) => Replan::Resteer {
                                reason,
                                plan,
                            },
                            _ => Replan::Unchanged,
                        }
                    },
                ),
            })
    }
}

/// Re-plans a live flow after its egress properties change.
///
/// A layer change tears the flow down. An invalid packet-path MTU returns an
/// error for the caller to handle as teardown. A QUIC downgrade returns a
/// replacement plan instead.
pub fn replan(
    current: &FlowPlan,
    filter: FilterPolicy,
    inspection: Inspection,
    accepts: Accepts,
    next: PathProperties,
    path_mtu: Mtu,
) -> (r: Result<Replan, PlanError>)
    ensures
        is_replan_of(r, *current, filter, inspection, accepts, next, path_mtu@),
{
    // Inspection can terminate a packet-capable egress, so recover the required
    // layer from both the plan and the reason for local termination.
    let inspected = filter == FilterPolicy::InspectHttp && inspection == Inspection::Candidate;
    let flow_layer = match current.transport {
        TransportPath::PacketFastPath { .. } => Accepts::IpPackets,
        TransportPath::LocalTermination => if inspected {
            accepts
        } else {
            Accepts::Flows
        },
    };
    if accepts != flow_layer {
        return Ok(Replan::Teardown);
    }
    let planned = plan_flow(filter, inspection, accepts, next, path_mtu);
    let next_plan = match planned {
        Ok(plan) => plan,
        Err(e) => return Err(e),
    };
    // Crossing transport paths loses the live byte or packet state. An MTU-only
    // change stays on the packet path and does not require teardown.
    let was_packets = matches!(current.transport, TransportPath::PacketFastPath { .. });
    let is_packets = matches!(next_plan.transport, TransportPath::PacketFastPath { .. });
    if was_packets != is_packets {
        return Ok(Replan::Teardown);
    }
    match (current.quic, next_plan.quic) {
        // A newly steered flow needs the replacement plan.
        (QuicPolicy::PassThrough, QuicPolicy::SteerToHttp2(reason)) => Ok(
            Replan::Resteer { reason, plan: next_plan },
        ),
        // Existing steering and recovery require no live-flow action here.
        _ => Ok(Replan::Unchanged),
    }
}

/// What becomes of a packet: settled before the plan, or routed by it.
pub open spec fn routed(transport: Transport, plan: FlowPlan, dns: DnsPolicy, backstop: Backstop) -> IngressAction {
    match admitted(transport, dns, backstop) {
        Admission::Settled(action) => action,
        Admission::Planned => routed_by_plan(transport, plan),
    }
}

/// Classifies a packet with [`admission`] and then [`route_planned`].
///
/// The plan is derived per session configuration, not per packet.
pub fn route_ingress(transport: Transport, plan: FlowPlan, dns: DnsPolicy, backstop: Backstop) -> (action: IngressAction)
    ensures
        action == routed(transport, plan, dns, backstop),
{
    match admission(transport, dns, backstop) {
        Admission::Settled(action) => action,
        Admission::Planned => route_planned(transport, plan),
    }
}

/// A flow has at most one plan.
pub proof fn a_plan_is_determined(
    a: Result<FlowPlan, PlanError>,
    b: Result<FlowPlan, PlanError>,
    filter: FilterPolicy,
    inspection: Inspection,
    accepts: Accepts,
    egress: PathProperties,
    path_mtu: u16,
)
    requires
        is_plan_of(a, filter, inspection, accepts, egress, path_mtu),
        is_plan_of(b, filter, inspection, accepts, egress, path_mtu),
    ensures
        a == b,
{
}

/// A flow has at most one replan.
pub proof fn a_replan_is_determined(
    a: Result<Replan, PlanError>,
    b: Result<Replan, PlanError>,
    current: FlowPlan,
    filter: FilterPolicy,
    inspection: Inspection,
    accepts: Accepts,
    next: PathProperties,
    path_mtu: u16,
)
    requires
        is_replan_of(a, current, filter, inspection, accepts, next, path_mtu),
        is_replan_of(b, current, filter, inspection, accepts, next, path_mtu),
    ensures
        a == b,
{
    assert forall|p: Result<FlowPlan, PlanError>, q: Result<FlowPlan, PlanError>| #[trigger]
        is_plan_of(p, filter, inspection, accepts, next, path_mtu) && #[trigger] is_plan_of(
            q,
            filter,
            inspection,
            accepts,
            next,
            path_mtu,
        ) implies p == q by {
        a_plan_is_determined(p, q, filter, inspection, accepts, next, path_mtu);
    }
}

/// QUIC passes only over a native path whose datagram budget clears RFC 9000's
/// floor, and then always: for a flow that is not inspected the two are one.
pub proof fn quic_passes_exactly_over_a_native_path_above_the_floor(
    plan: FlowPlan,
    filter: FilterPolicy,
    inspection: Inspection,
    accepts: Accepts,
    egress: PathProperties,
    path_mtu: u16,
)
    requires
        is_plan_of(Ok(plan), filter, inspection, accepts, egress, path_mtu),
    ensures
        (plan.quic == QuicPolicy::PassThrough) == (!is_inspected(filter, inspection)
            && egress.datagram_fidelity == DatagramFidelity::Native && match plan.transport {
            TransportPath::PacketFastPath { inner_mtu } => inner_mtu@ >= MIN_QUIC_MTU,
            TransportPath::LocalTermination => egress.max_datagram_size is Some
                && egress.max_datagram_size->Some_0 >= MIN_QUIC_MTU,
        }),
{
}

/// A live flow that carries QUIC over a path that stays on its layer is
/// re-steered, never torn down, when the path stops being native.
pub proof fn losing_native_datagrams_resteers(
    r: Result<Replan, PlanError>,
    current: FlowPlan,
    inspection: Inspection,
    next: PathProperties,
    path_mtu: u16,
)
    requires
        current.transport == TransportPath::LocalTermination,
        current.quic == QuicPolicy::PassThrough,
        next.datagram_fidelity != DatagramFidelity::Native,
        is_replan_of(r, current, FilterPolicy::PassThrough, inspection, Accepts::Flows, next, path_mtu),
    ensures
        r == Ok::<Replan, PlanError>(
            Replan::Resteer {
                reason: SteeringReason::DatagramFidelity,
                plan: FlowPlan {
                    transport: TransportPath::LocalTermination,
                    quic: QuicPolicy::SteerToHttp2(SteeringReason::DatagramFidelity),
                },
            },
        ),
{
}

/// A flow replanned under the very properties it was planned with stays as it
/// is.
pub proof fn replanning_with_nothing_new_changes_nothing(
    r: Result<Replan, PlanError>,
    current: FlowPlan,
    filter: FilterPolicy,
    inspection: Inspection,
    accepts: Accepts,
    egress: PathProperties,
    path_mtu: u16,
)
    requires
        is_plan_of(Ok(current), filter, inspection, accepts, egress, path_mtu),
        is_replan_of(r, current, filter, inspection, accepts, egress, path_mtu),
    ensures
        r == Ok::<Replan, PlanError>(Replan::Unchanged),
{
    assert forall|p: Result<FlowPlan, PlanError>| #[trigger]
        is_plan_of(p, filter, inspection, accepts, egress, path_mtu) implies p == Ok::<
        FlowPlan,
        PlanError,
    >(current) by {
        a_plan_is_determined(p, Ok(current), filter, inspection, accepts, egress, path_mtu);
    }
}

/// No fragment reaches a plan: whatever the session, it is reassembled first.
pub proof fn fragments_are_reassembled_first(plan: FlowPlan, dns: DnsPolicy, backstop: Backstop)
    ensures
        routed(Transport::Fragment, plan, dns, backstop) == IngressAction::Reassemble,
{
}

/// Under a plan that terminates locally every carried transport is taken up with
/// that very plan: TCP opens a stream, UDP a datagram flow, and ICMP is handled.
/// Under a packet path every packet goes on as it is, with that very plan.
pub proof fn a_plan_carries_every_carried_transport(transport: Transport, plan: FlowPlan, action: IngressAction)
    requires
        call_ensures(route_planned, (transport, plan), action),
    ensures
        plan.transport is PacketFastPath ==> action == IngressAction::ForwardPacket(plan),
        plan.transport is LocalTermination && transport is Tcp ==> action == IngressAction::OpenStream(plan),
        plan.transport is LocalTermination && transport is Udp ==> action == IngressAction::OpenDatagram(plan),
        plan.transport is LocalTermination && transport is Icmp ==> action == IngressAction::HandleIcmp(plan),
        action is DropUnsupported ==> transport is Other || transport is Fragment,
{
}

/// A packet that arrives is settled before its plan in four cases, and in no
/// other: a fragment is reassembled, a transport that is not carried is dropped,
/// a query to port 53 is answered where queries are intercepted, and a datagram
/// to port 443 is dropped while its destination is steered. Everything else is
/// carried by the plan: as a packet, a stream, a datagram flow or as ICMP.
pub proof fn a_packet_is_settled_early_or_carried(
    transport: Transport,
    plan: FlowPlan,
    dns: DnsPolicy,
    backstop: Backstop,
    action: IngressAction,
)
    requires
        call_ensures(route_ingress, (transport, plan, dns, backstop), action),
    ensures
        action == IngressAction::Reassemble <==> transport is Fragment,
        action == IngressAction::DropUnsupported <==> transport is Other,
        action == IngressAction::ResolveDns <==> dns == DnsPolicy::Intercept && (transport matches Transport::Udp {
            destination_port,
            ..
        } && destination_port == 53),
        action == IngressAction::DropSteered <==> backstop == Backstop::Active && (transport matches Transport::Udp {
            destination_port,
            ..
        } && destination_port == 443),
        action is ForwardPacket || action is OpenStream || action is OpenDatagram || action is HandleIcmp
            <==> transport is Tcp || transport is Icmp || (transport matches Transport::Udp { destination_port, .. }
            && !(destination_port == 53 && dns == DnsPolicy::Intercept) && !(destination_port == 443 && backstop
            == Backstop::Active)),
        action matches IngressAction::ForwardPacket(p) ==> p == plan && plan.transport is PacketFastPath,
        action matches IngressAction::OpenStream(p) ==> p == plan && plan.transport is LocalTermination
            && transport is Tcp,
        action matches IngressAction::OpenDatagram(p) ==> p == plan && plan.transport is LocalTermination
            && transport is Udp,
        action matches IngressAction::HandleIcmp(p) ==> p == plan && plan.transport is LocalTermination
            && transport is Icmp,
{
}

/// What is settled before any plan is what becomes of the packet under every
/// plan; what is not settled is what the plan routes.
pub proof fn admission_and_the_plan_decide_together(
    transport: Transport,
    plan: FlowPlan,
    dns: DnsPolicy,
    backstop: Backstop,
    admitted_as: Admission,
    carried_as: IngressAction,
    action: IngressAction,
)
    requires
        call_ensures(admission, (transport, dns, backstop), admitted_as),
        call_ensures(route_planned, (transport, plan), carried_as),
        call_ensures(route_ingress, (transport, plan, dns, backstop), action),
    ensures
        admitted_as matches Admission::Settled(settled) ==> action == settled && !(settled is ForwardPacket)
            && !(settled is OpenStream) && !(settled is OpenDatagram) && !(settled is HandleIcmp),
        admitted_as == Admission::Planned ==> action == carried_as,
        transport is Tcp || transport is Icmp ==> admitted_as == Admission::Planned,
        transport is Udp && dns == DnsPolicy::Forward && backstop == Backstop::Lapsed ==> admitted_as
            == Admission::Planned,
        transport is Fragment ==> admitted_as == Admission::Settled(IngressAction::Reassemble),
        transport is Other ==> admitted_as == Admission::Settled(IngressAction::DropUnsupported),
{
}

/// An inspected flow, and every flow over an egress that takes flows, terminates
/// locally, and planning it never fails. Every other flow travels as packets,
/// and what the packets may hold and what the egress adds make up the path's
/// MTU; planning fails exactly where fewer than 1280 bytes are left.
pub proof fn a_flow_travels_as_packets_or_terminates_locally(
    filter: FilterPolicy,
    inspection: Inspection,
    accepts: Accepts,
    egress: PathProperties,
    path_mtu: Mtu,
    r: Result<FlowPlan, PlanError>,
)
    requires
        call_ensures(plan_flow, (filter, inspection, accepts, egress, path_mtu), r),
    ensures
        accepts == Accepts::Flows || (filter == FilterPolicy::InspectHttp && inspection == Inspection::Candidate)
            ==> r is Ok && r->Ok_0.transport == TransportPath::LocalTermination,
        accepts == Accepts::IpPackets && !(filter == FilterPolicy::InspectHttp && inspection
            == Inspection::Candidate) ==> {
            &&& r is Ok <==> egress.overhead_bytes + 1280 <= path_mtu@
            &&& r matches Ok(plan) ==> plan.transport is PacketFastPath
                && plan.transport->inner_mtu@ + egress.overhead_bytes == path_mtu@
            &&& r matches Err(e) ==> if egress.overhead_bytes > path_mtu@ {
                e == PlanError::OverheadExceedsPathMtu
            } else {
                e == PlanError::InnerMtu(MtuError::BelowMinimum((path_mtu@ - egress.overhead_bytes) as u16))
            }
        },
{
}

/// Why a planned flow is steered away from QUIC: an inspected flow for the
/// inspection, any other over a path that is not native for its datagrams, and
/// over a native path for a datagram ceiling that is not known to reach 1200
/// bytes. A packet path always reaches them.
pub proof fn steering_names_its_reason(
    filter: FilterPolicy,
    inspection: Inspection,
    accepts: Accepts,
    egress: PathProperties,
    path_mtu: Mtu,
    plan: FlowPlan,
)
    requires
        call_ensures(plan_flow, (filter, inspection, accepts, egress, path_mtu), Ok(plan)),
    ensures
        filter == FilterPolicy::InspectHttp && inspection == Inspection::Candidate <==> plan.quic
            == QuicPolicy::SteerToHttp2(SteeringReason::InspectionRequired),
        !(filter == FilterPolicy::InspectHttp && inspection == Inspection::Candidate) ==> {
            &&& plan.quic == QuicPolicy::SteerToHttp2(SteeringReason::DatagramFidelity) <==> egress.datagram_fidelity
                != DatagramFidelity::Native
            &&& plan.quic == QuicPolicy::SteerToHttp2(SteeringReason::MtuBelowMinimum) <==> accepts
                == Accepts::Flows && egress.datagram_fidelity == DatagramFidelity::Native && (
            egress.max_datagram_size is None || egress.max_datagram_size->Some_0 < 1200)
            &&& plan.quic == QuicPolicy::PassThrough <==> egress.datagram_fidelity == DatagramFidelity::Native && (
            accepts == Accepts::IpPackets || (egress.max_datagram_size is Some && egress.max_datagram_size->Some_0
                >= 1200))
        },
{
}

/// Replanning a live flow, held against a plan made anew. A flow whose layer the
/// egress no longer takes, or that would have to change its layer, is torn down.
/// On its layer it keeps QUIC or its steering as it is, and where QUIC is lost
/// it is handed the new plan with the new plan's reason. A plan that cannot be
/// made is an error.
pub proof fn replanning_follows_the_new_plan(
    current: FlowPlan,
    filter: FilterPolicy,
    inspection: Inspection,
    accepts: Accepts,
    next: PathProperties,
    path_mtu: Mtu,
    planned: Result<FlowPlan, PlanError>,
    r: Result<Replan, PlanError>,
)
    requires
        call_ensures(plan_flow, (filter, inspection, accepts, next, path_mtu), planned),
        call_ensures(replan, (&current, filter, inspection, accepts, next, path_mtu), r),
    ensures
        current.transport is PacketFastPath && accepts == Accepts::Flows ==> r == Ok::<Replan, PlanError>(
            Replan::Teardown,
        ),
        current.transport is LocalTermination && accepts == Accepts::IpPackets && !(filter
            == FilterPolicy::InspectHttp && inspection == Inspection::Candidate) ==> r == Ok::<Replan, PlanError>(
            Replan::Teardown,
        ),
        current.transport is PacketFastPath && filter == FilterPolicy::InspectHttp && inspection
            == Inspection::Candidate ==> r == Ok::<Replan, PlanError>(Replan::Teardown),
        current.transport is PacketFastPath && accepts == Accepts::IpPackets ==> (r is Err <==> planned is Err),
        current.transport is LocalTermination ==> r is Ok,
        r matches Err(e) ==> planned == Err::<FlowPlan, PlanError>(e),
        (planned is Ok && planned->Ok_0.transport is PacketFastPath == current.transport is PacketFastPath && (
        current.transport is PacketFastPath ==> accepts == Accepts::IpPackets)) ==> {
            &&& current.quic == QuicPolicy::PassThrough && planned->Ok_0.quic is SteerToHttp2 ==> r == Ok::<
                Replan,
                PlanError,
            >(Replan::Resteer { reason: planned->Ok_0.quic->SteerToHttp2_0, plan: planned->Ok_0 })
            &&& current.quic is SteerToHttp2 || planned->Ok_0.quic == QuicPolicy::PassThrough ==> r == Ok::<
                Replan,
                PlanError,
            >(Replan::Unchanged)
        },
{
    assert forall|p: Result<FlowPlan, PlanError>| #[trigger]
        is_plan_of(p, filter, inspection, accepts, next, path_mtu@) implies p == planned by {
        a_plan_is_determined(p, planned, filter, inspection, accepts, next, path_mtu@);
    }
}

/// Two claims chain to what both can keep: the path is native, emulated, mapped
/// or marked as well as the worse of the two, its overhead is both overheads,
/// its ceiling is the lower of the ceilings there are. It fails exactly where
/// the overheads do not fit.
pub proof fn a_chain_is_what_both_parts_keep(
    a: PathProperties,
    b: PathProperties,
    r: Result<PathProperties, ChainError>,
)
    requires
        call_ensures(PathProperties::chain, (a, b), r),
    ensures
        r is Err <==> a.overhead_bytes + b.overhead_bytes > 65535,
        r matches Err(e) ==> e == ChainError::OverheadOverflow,
        r matches Ok(c) ==> {
            &&& c.overhead_bytes == a.overhead_bytes + b.overhead_bytes
            &&& c.preserves_ecn <==> a.preserves_ecn && b.preserves_ecn
            &&& c.datagram_fidelity == DatagramFidelity::Absent <==> a.datagram_fidelity
                == DatagramFidelity::Absent || b.datagram_fidelity == DatagramFidelity::Absent
            &&& c.datagram_fidelity == DatagramFidelity::Native <==> a.datagram_fidelity
                == DatagramFidelity::Native && b.datagram_fidelity == DatagramFidelity::Native
            &&& c.nat_behavior == NatBehavior::AddressAndPortDependent <==> a.nat_behavior
                == NatBehavior::AddressAndPortDependent || b.nat_behavior == NatBehavior::AddressAndPortDependent
            &&& c.nat_behavior == NatBehavior::EndpointIndependent <==> a.nat_behavior
                == NatBehavior::EndpointIndependent && b.nat_behavior == NatBehavior::EndpointIndependent
            &&& c.max_datagram_size is None <==> a.max_datagram_size is None && b.max_datagram_size is None
            &&& c.max_datagram_size is Some ==> c.max_datagram_size == a.max_datagram_size
                || c.max_datagram_size == b.max_datagram_size
            &&& a.max_datagram_size is Some ==> c.max_datagram_size->Some_0 <= a.max_datagram_size->Some_0
            &&& b.max_datagram_size is Some ==> c.max_datagram_size->Some_0 <= b.max_datagram_size->Some_0
        },
{
}

impl MtuError {
    /// The text of this error.
    pub open spec fn text(self) -> Seq<char> {
        match self {
            MtuError::BelowMinimum(bytes) => "MTU "@ + text::decimal(bytes as nat) + " is below the "@ + text::decimal(
                MIN_IPV6_MTU as nat,
            ) + "-byte IPv6 minimum"@,
        }
    }

    /// Renders this error for a reader.
    pub fn message(&self) -> (s: String)
        ensures
            s@ == self.text(),
    {
        let mut s = String::new();
        match self {
            MtuError::BelowMinimum(bytes) => {
                push_text(&mut s, "MTU ");
                push_decimal(&mut s, *bytes as u64);
                push_text(&mut s, " is below the ");
                push_decimal(&mut s, MIN_IPV6_MTU as u64);
                push_text(&mut s, "-byte IPv6 minimum");
            },
        }
        proof {
            assert(s@ =~= self.text());
        }
        s
    }
}

impl PlanError {
    /// The text of this error.
    pub open spec fn text(self) -> Seq<char> {
        match self {
            PlanError::OverheadExceedsPathMtu => "egress overhead exceeds the path MTU"@,
            PlanError::InnerMtu(error) => "inner "@ + error.text(),
        }
    }

    /// Renders this error for a reader.
    pub fn message(&self) -> (s: String)
        ensures
            s@ == self.text(),
    {
        let mut s = String::new();
        match self {
            PlanError::OverheadExceedsPathMtu => {
                push_text(&mut s, "egress overhead exceeds the path MTU");
            },
            PlanError::InnerMtu(error) => {
                push_text(&mut s, "inner ");
                push_text(&mut s, error.message().as_str());
            },
        }
        proof {
            assert(s@ =~= self.text());
        }
        s
    }

    /// The error this one was caused by.
    pub fn source(&self) -> (cause: Option<MtuError>)
        ensures
            cause == (match *self {
                PlanError::InnerMtu(e) => Some(e),
                PlanError::OverheadExceedsPathMtu => None,
            }),
    {
        match self {
            PlanError::InnerMtu(error) => Some(*error),
            PlanError::OverheadExceedsPathMtu => None,
        }
    }
}

impl ChainError {
    /// The text of this error.
    pub open spec fn text(self) -> Seq<char> {
        match self {
            ChainError::MixedLayers => "chained egresses accept different layers"@,
            ChainError::OverheadOverflow => "chained egress overhead overflows"@,
        }
    }

    /// Renders this error for a reader.
    pub fn message(&self) -> (s: String)
        ensures
            s@ == self.text(),
    {
        match self {
            ChainError::MixedLayers => String::from_str("chained egresses accept different layers"),
            ChainError::OverheadOverflow => String::from_str("chained egress overhead overflows"),
        }
    }
}

} // verus!
