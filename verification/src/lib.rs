//! Layered packet, transport, policy and interception core of a filtering
//! tunnel.
//!
//! Every decision the tunnel makes is a function of plain values, and every
//! such function states in its contract what it decides.

pub mod addr;
pub mod authority;
pub mod ca;
pub mod clock;
pub mod connectors;
pub mod csp;
pub mod decode;
pub mod exchange;
pub mod fields;
pub mod fifo;
pub mod filter;
pub mod hiding;
pub mod host;
pub mod hosts;
pub mod hysteria2;
pub mod idle;
pub mod l3;
pub mod l4;
pub mod literal;
pub mod live;
pub mod masque;
pub mod mirror;
pub mod mitm;
pub mod name;
pub mod plan;
pub mod reader;
pub mod rewrite;
pub mod session;
pub mod table;
pub mod target;
pub mod text;
pub mod varint;
pub mod wire;
pub mod zstd;

pub use addr::{InternalEndpoint, IpAddr, Ipv4Addr, Ipv6Addr};
pub use authority::{CertificateAuthority, Leaf, MitmResolver};
pub use ca::{CaError, CaKeys, CaMaterial, Trust};
pub use clock::{Duration, Instant};
pub use csp::{permit_inline_style, InlineStyle};
pub use exchange::{steer_alt_svc, AllowAll, AltSvc, FilterVerdict, RequestFilter};
pub use filter::{parse_rule, Deferrals, Deferred, ListReport, Rule, RuleError};
pub use hiding::{CosmeticSource, HidingRules, NoCosmetics};
pub use host::device::{Device, SimDevice};
pub use host::shell::{plan_query, Control, Panics, QueryPlan, Resolution, Telemetry};
pub use hosts::{HostPolicy, HostVerdict, Judgment};
pub use hysteria2::{
    decode_tcp_response, encode_tcp_request, Decoded, Hysteria2Config, Hysteria2Egress, ProxyError,
    TcpResponse,
};
pub use l3::emit::{forbids_fragmentation, spend_hop, udp_datagram_len, write_udp, WriteError};
pub use l3::fragment::{Fragment, ReassembledPacket};
pub use l3::packet::{IcmpClass, IngressPacket, PacketError, Transport};
pub use l3::path::{clamp_mss, validate_ptb, PathUpdate};
pub use l3::reassembler::{PushOutcome, Reassembler};
pub use l3::report::write_too_big;
pub use l3::udp::{DatagramBuffer, FlowTableError, SendOutcome, UdpFlowTable};
pub use l4::relay::{RelayCounts, RelayLimits};
pub use l4::stream::{
    LocalStack, StreamError, StreamId, Terminated, TerminationError, TerminationLimits,
};
pub use masque::{
    decode_ip_datagram, encode_ip_datagram, CloseReason, MasqueConfig, MasqueEgress, TunnelState,
    MASQUE_OVERHEAD_BYTES,
};
pub use mirror::{
    alpn_list, read_hello, ClientProfile, H2Profile, HandshakeFailure, Hello, Offer, Refusal,
};
pub use mitm::{InterceptDecision, InterceptPolicy, VersionCrossings, Wire};
pub use name::{DomainName, Name};
pub use plan::{
    admission, plan_flow, replan, route_ingress, route_planned, Accepts, Admission, Backstop,
    ChainError, DatagramFidelity, DnsPolicy, FilterPolicy, FlowPlan, IngressAction, Inspection,
    Mtu, MtuError, NatBehavior, PathProperties, PlanError, QuicBudget, QuicPolicy, Replan,
    SteeringReason, TransportPath, DNS_PORT, HTTPS_PORT, MIN_IPV6_MTU, MIN_QUIC_MTU,
};
pub use rewrite::{
    rewritable, BudgetError, Coding, NotRewritable, Rewritable, RewriteFailures, StreamBudget,
    Truncated,
};
pub use session::{
    introduce, Demotion, Handling, InterceptedTier, Introduction, SessionError, SessionLimits,
    SpliceReason,
};
pub use target::{SocketAddr, Target};
pub use zstd::Undecodable;
