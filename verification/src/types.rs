//! Identities, addresses, versions and heartbeats.
use crate::order::{
    bytes_before, compare_bytes, compare_text, lemma_bytes_before_irreflexive,
    lemma_bytes_before_total, lemma_bytes_before_transitive, lemma_text_before_total, text_before,
    KeyOrder, OrderedKey,
};
use crate::text::{arc_str, byte_string_chars, byte_string_str, decimal, decimal_string};
use bytestring::ByteString;
use std::sync::Arc;
use vstd::prelude::*;
use vstd::string::StringExecFns;

verus! {

/// The current version of a key. Versions are dense (`1..N`), assigned in key order at
/// startup, and immutable thereafter.
pub type Version = u64;

/// An IP address, as its octets in network order.
#[derive(Debug, Clone, Copy, PartialEq, Eq, Hash, PartialOrd, Ord)]
pub enum IpAddr {
    V4([u8; 4]),
    V6([u8; 16]),
}

/// The address of a socket: an IP address and a port, and for IPv6 also the flow
/// information and the scope.
#[derive(Debug, Clone, Copy, PartialEq, Eq, Hash, PartialOrd, Ord)]
pub enum SocketAddr {
    V4 { octets: [u8; 4], port: u16 },
    V6 { octets: [u8; 16], port: u16, flowinfo: u32, scope_id: u32 },
}

impl SocketAddr {
    /// The IP part of the address.
    pub open spec fn spec_ip(self) -> IpAddr {
        match self {
            SocketAddr::V4 { octets, .. } => IpAddr::V4(octets),
            SocketAddr::V6 { octets, .. } => IpAddr::V6(octets),
        }
    }

    /// The port of the address.
    pub open spec fn spec_port(self) -> u16 {
        match self {
            SocketAddr::V4 { port, .. } => port,
            SocketAddr::V6 { port, .. } => port,
        }
    }

    /// The address made of an IP and a port; for IPv6 without flow information or scope.
    pub open spec fn of(ip: IpAddr, port: u16) -> SocketAddr {
        match ip {
            IpAddr::V4(octets) => SocketAddr::V4 { octets, port },
            IpAddr::V6(octets) => SocketAddr::V6 { octets, port, flowinfo: 0, scope_id: 0 },
        }
    }

    /// The address made of an IP and a port.
    pub fn new(ip: IpAddr, port: u16) -> (addr: SocketAddr)
        ensures
            addr == SocketAddr::of(ip, port),
    {
        match ip {
            IpAddr::V4(octets) => SocketAddr::V4 { octets, port },
            IpAddr::V6(octets) => SocketAddr::V6 { octets, port, flowinfo: 0, scope_id: 0 },
        }
    }

    pub fn ip(&self) -> (ip: IpAddr)
        ensures
            ip == self.spec_ip(),
    {
        match self {
            SocketAddr::V4 { octets, .. } => IpAddr::V4(*octets),
            SocketAddr::V6 { octets, .. } => IpAddr::V6(*octets),
        }
    }

    pub fn port(&self) -> (port: u16)
        ensures
            port == self.spec_port(),
    {
        match self {
            SocketAddr::V4 { port, .. } => *port,
            SocketAddr::V6 { port, .. } => *port,
        }
    }
}

/// IPv4 addresses come before IPv6 ones; within a family the octets decide, then the
/// port, then the flow information, then the scope.
pub open spec fn addr_before(a: SocketAddr, b: SocketAddr) -> bool {
    match (a, b) {
        (SocketAddr::V4 { octets: ao, port: ap }, SocketAddr::V4 { octets: bo, port: bp }) => {
            bytes_before(ao@, bo@) || (ao@ == bo@ && ap < bp)
        },
        (
            SocketAddr::V6 { octets: ao, port: ap, flowinfo: af, scope_id: ac },
            SocketAddr::V6 { octets: bo, port: bp, flowinfo: bf, scope_id: bc },
        ) => {
            bytes_before(ao@, bo@) || (ao@ == bo@ && (ap < bp || (ap == bp && (af < bf || (af == bf
                && ac < bc)))))
        },
        (SocketAddr::V4 { .. }, SocketAddr::V6 { .. }) => true,
        (SocketAddr::V6 { .. }, SocketAddr::V4 { .. }) => false,
    }
}

/// Two numbers, as keys.
fn compare_numbers(a: u64, b: u64) -> (order: KeyOrder)
    ensures
        match order {
            KeyOrder::Before => a < b,
            KeyOrder::Same => a == b,
            KeyOrder::After => b < a,
        },
{
    if a < b {
        KeyOrder::Before
    } else if a == b {
        KeyOrder::Same
    } else {
        KeyOrder::After
    }
}

impl OrderedKey for SocketAddr {
    type Key = SocketAddr;

    open spec fn key(&self) -> SocketAddr {
        *self
    }

    open spec fn before(a: SocketAddr, b: SocketAddr) -> bool {
        addr_before(a, b)
    }

    proof fn before_irreflexive(a: SocketAddr) {
        match a {
            SocketAddr::V4 { octets, .. } => lemma_bytes_before_irreflexive(octets@),
            SocketAddr::V6 { octets, .. } => lemma_bytes_before_irreflexive(octets@),
        }
        assert(!Self::before(a, a));
    }

    proof fn before_transitive(a: SocketAddr, b: SocketAddr, c: SocketAddr) {
        match (a, b, c) {
            (
                SocketAddr::V4 { octets: ao, .. },
                SocketAddr::V4 { octets: bo, .. },
                SocketAddr::V4 { octets: co, .. },
            ) => {
                if bytes_before(ao@, bo@) && bytes_before(bo@, co@) {
                    lemma_bytes_before_transitive(ao@, bo@, co@);
                }
            },
            (
                SocketAddr::V6 { octets: ao, .. },
                SocketAddr::V6 { octets: bo, .. },
                SocketAddr::V6 { octets: co, .. },
            ) => {
                if bytes_before(ao@, bo@) && bytes_before(bo@, co@) {
                    lemma_bytes_before_transitive(ao@, bo@, co@);
                }
            },
            _ => {},
        }
    }

    proof fn before_total(a: SocketAddr, b: SocketAddr) {
        match (a, b) {
            (SocketAddr::V4 { octets: ao, .. }, SocketAddr::V4 { octets: bo, .. }) => {
                lemma_bytes_before_total(ao@, bo@);
                if ao@ == bo@ {
                    assert(ao =~= bo);
                }
            },
            (SocketAddr::V6 { octets: ao, .. }, SocketAddr::V6 { octets: bo, .. }) => {
                lemma_bytes_before_total(ao@, bo@);
                if ao@ == bo@ {
                    assert(ao =~= bo);
                }
            },
            _ => {},
        }
    }

    fn compare(&self, other: &SocketAddr) -> (order: KeyOrder) {
        match (self, other) {
            (SocketAddr::V4 { octets: ao, port: ap }, SocketAddr::V4 { octets: bo, port: bp }) => {
                match compare_bytes(ao.as_slice(), bo.as_slice()) {
                    KeyOrder::Same => {
                        assert(ao =~= bo);
                        compare_numbers(*ap as u64, *bp as u64)
                    },
                    unequal => unequal,
                }
            },
            (
                SocketAddr::V6 { octets: ao, port: ap, flowinfo: af, scope_id: ac },
                SocketAddr::V6 { octets: bo, port: bp, flowinfo: bf, scope_id: bc },
            ) => {
                match compare_bytes(ao.as_slice(), bo.as_slice()) {
                    KeyOrder::Same => {
                        assert(ao =~= bo);
                        match compare_numbers(*ap as u64, *bp as u64) {
                            KeyOrder::Same => match compare_numbers(*af as u64, *bf as u64) {
                                KeyOrder::Same => compare_numbers(*ac as u64, *bc as u64),
                                unequal => unequal,
                            },
                            unequal => unequal,
                        }
                    },
                    unequal => unequal,
                }
            },
            (SocketAddr::V4 { .. }, SocketAddr::V6 { .. }) => KeyOrder::Before,
            (SocketAddr::V6 { .. }, SocketAddr::V4 { .. }) => KeyOrder::After,
        }
    }
}

/// Identifies a member across the lifetime of a cluster.
///
/// A member may go down and come back up multiple times. A restart yields a brand-new
/// `MemberId`, which is also how a restart bypasses the dead-member quarantine.
#[derive(Debug, PartialEq, Eq, Hash, PartialOrd, Ord)]
pub struct MemberId {
    /// An identifier unique across the cluster.
    pub id: Arc<str>,
    /// A monotonic counter incremented every time the member restarts.
    pub incarnation: u64,
    /// The socket address peers should use to gossip with the member.
    pub gossip_addr: SocketAddr,
}

/// What a [`MemberId`] stands for.
#[verifier::ext_equal]
pub struct MemberIdView {
    pub id: Seq<char>,
    pub incarnation: u64,
    pub gossip_addr: SocketAddr,
}

impl View for MemberId {
    type V = MemberIdView;

    open spec fn view(&self) -> MemberIdView {
        MemberIdView {
            id: self.id@,
            incarnation: self.incarnation,
            gossip_addr: self.gossip_addr,
        }
    }
}

impl Clone for MemberId {
    fn clone(&self) -> (copy: Self)
        ensures
            copy == *self,
    {
        MemberId {
            id: self.id.clone(),
            incarnation: self.incarnation,
            gossip_addr: self.gossip_addr,
        }
    }
}

impl MemberId {
    pub fn new(id: Arc<str>, incarnation: u64, gossip_addr: SocketAddr) -> (member_id: Self)
        ensures
            member_id == (MemberId { id, incarnation, gossip_addr }),
    {
        MemberId { id, incarnation, gossip_addr }
    }

    /// The gossip advertise port.
    pub fn advertise_port(&self) -> (port: u16)
        ensures
            port == self.gossip_addr.spec_port(),
    {
        self.gossip_addr.port()
    }

    /// The identity of a member on the local host: `member-<port>`, in its first life.
    pub open spec fn local(port: u16) -> MemberIdView {
        MemberIdView {
            id: "member-"@ + decimal(port as nat),
            incarnation: 0,
            gossip_addr: SocketAddr::V4 { octets: [127u8, 0u8, 0u8, 1u8], port },
        }
    }

    /// Creates a [`MemberId`] for local testing.
    pub fn for_local_test(port: u16) -> (member_id: Self)
        ensures
            member_id@ == MemberId::local(port),
    {
        let mut id: String = "member-".to_owned();
        id.append(decimal_string(port as u64).as_str());
        MemberId::new(
            arc_str(id.as_str()),
            0,
            SocketAddr::V4 { octets: [127u8, 0u8, 0u8, 1u8], port },
        )
    }
}

impl OrderedKey for MemberId {
    type Key = MemberIdView;

    open spec fn key(&self) -> MemberIdView {
        self@
    }

    /// The identifiers decide, then the incarnations, then the addresses.
    open spec fn before(a: MemberIdView, b: MemberIdView) -> bool {
        text_before(a.id, b.id) || (a.id == b.id && (a.incarnation < b.incarnation || (
        a.incarnation == b.incarnation && addr_before(a.gossip_addr, b.gossip_addr))))
    }

    proof fn before_irreflexive(a: MemberIdView) {
        lemma_bytes_before_irreflexive(vstd::utf8::encode_utf8(a.id));
        SocketAddr::before_irreflexive(a.gossip_addr);
    }

    proof fn before_transitive(a: MemberIdView, b: MemberIdView, c: MemberIdView) {
        if text_before(a.id, b.id) && text_before(b.id, c.id) {
            lemma_bytes_before_transitive(
                vstd::utf8::encode_utf8(a.id),
                vstd::utf8::encode_utf8(b.id),
                vstd::utf8::encode_utf8(c.id),
            );
        }
        if addr_before(a.gossip_addr, b.gossip_addr) && addr_before(b.gossip_addr, c.gossip_addr) {
            SocketAddr::before_transitive(a.gossip_addr, b.gossip_addr, c.gossip_addr);
        }
    }

    proof fn before_total(a: MemberIdView, b: MemberIdView) {
        lemma_text_before_total(a.id, b.id);
        SocketAddr::before_total(a.gossip_addr, b.gossip_addr);
        if a.id == b.id && a.incarnation == b.incarnation && a.gossip_addr == b.gossip_addr {
            assert(a =~= b);
        }
    }

    fn compare(&self, other: &MemberId) -> (order: KeyOrder) {
        match compare_text(&*self.id, &*other.id) {
            KeyOrder::Same => match compare_numbers(self.incarnation, other.incarnation) {
                KeyOrder::Same => {
                    let order = self.gossip_addr.compare(&other.gossip_addr);
                    proof {
                        if order == KeyOrder::Same {
                            assert(self@ =~= other@);
                        }
                    }
                    order
                },
                unequal => unequal,
            },
            unequal => unequal,
        }
    }
}

/// Whether two identities are the same.
pub fn same_member(a: &MemberId, b: &MemberId) -> (same: bool)
    ensures
        same == (a@ == b@),
{
    match a.compare(b) {
        KeyOrder::Same => true,
        KeyOrder::Before | KeyOrder::After => {
            proof {
                MemberId::before_irreflexive(a@);
            }
            false
        },
    }
}

impl OrderedKey for ByteString {
    type Key = Seq<char>;

    open spec fn key(&self) -> Seq<char> {
        byte_string_chars(*self)
    }

    open spec fn before(a: Seq<char>, b: Seq<char>) -> bool {
        text_before(a, b)
    }

    proof fn before_irreflexive(a: Seq<char>) {
        lemma_bytes_before_irreflexive(vstd::utf8::encode_utf8(a));
    }

    proof fn before_transitive(a: Seq<char>, b: Seq<char>, c: Seq<char>) {
        lemma_bytes_before_transitive(
            vstd::utf8::encode_utf8(a),
            vstd::utf8::encode_utf8(b),
            vstd::utf8::encode_utf8(c),
        );
    }

    proof fn before_total(a: Seq<char>, b: Seq<char>) {
        lemma_text_before_total(a, b);
    }

    fn compare(&self, other: &ByteString) -> (order: KeyOrder) {
        compare_text(byte_string_str(self), byte_string_str(other))
    }
}

/// A versioned, immutable value.
#[derive(Debug, PartialEq, Eq)]
pub struct VersionedValue {
    pub value: ByteString,
    pub version: Version,
}

/// What a [`VersionedValue`] stands for.
#[verifier::ext_equal]
pub struct VersionedValueView {
    pub value: Seq<char>,
    pub version: Version,
}

impl View for VersionedValue {
    type V = VersionedValueView;

    open spec fn view(&self) -> VersionedValueView {
        VersionedValueView { value: byte_string_chars(self.value), version: self.version }
    }
}

impl Clone for VersionedValue {
    fn clone(&self) -> (copy: Self)
        ensures
            copy@ == self@,
    {
        VersionedValue { value: self.value.clone(), version: self.version }
    }
}

impl VersionedValue {
    pub fn new(value: ByteString, version: Version) -> (versioned: Self)
        ensures
            versioned == (VersionedValue { value, version }),
    {
        VersionedValue { value, version }
    }
}

/// The current heartbeat of a member. Monotonically increasing; the only mutable
/// per-member datum (key-values are immutable).
#[derive(Debug, Clone, Copy, PartialEq, Eq, Hash, PartialOrd, Ord, Structural)]
pub struct Heartbeat(pub u64);

impl Default for Heartbeat {
    fn default() -> (heartbeat: Self)
        ensures
            heartbeat == Heartbeat(0),
    {
        Heartbeat(0)
    }
}

impl Heartbeat {
    /// Counts one more beat. A heartbeat is bumped at most a few hundred times per
    /// second, so the last representable one is out of reach.
    pub fn inc(&mut self)
        requires
            old(self).0 < u64::MAX,
        ensures
            final(self).0 == old(self).0 + 1,
    {
        self.0 = self.0 + 1;
    }
}

impl From<Heartbeat> for u64 {
    fn from(heartbeat: Heartbeat) -> (beats: u64) {
        heartbeat.0
    }
}

impl vstd::std_specs::convert::FromSpecImpl<Heartbeat> for u64 {
    open spec fn obeys_from_spec() -> bool {
        true
    }

    open spec fn from_spec(heartbeat: Heartbeat) -> u64 {
        heartbeat.0
    }
}

/// IPv4 addresses come before IPv6 addresses. Within a family the octets decide; if they are the
/// same, the ports; then the flow information; and then the scope.
pub proof fn law_order_of_addresses(a: SocketAddr, b: SocketAddr)
    ensures
        a is V4 && b is V6 ==> addr_before(a, b) && !addr_before(b, a),
        a matches SocketAddr::V4 { octets: ao, port: ap } ==> (
        b matches SocketAddr::V4 { octets: bo, port: bp } ==> {
            &&& ao@ != bo@ ==> (addr_before(a, b) <==> bytes_before(ao@, bo@))
            &&& ao@ == bo@ ==> (addr_before(a, b) <==> ap < bp)
        }),
        a matches SocketAddr::V6 { octets: ao, port: ap, flowinfo: af, scope_id: ac } ==> (
        b matches SocketAddr::V6 { octets: bo, port: bp, flowinfo: bf, scope_id: bc } ==> {
            &&& ao@ != bo@ ==> (addr_before(a, b) <==> bytes_before(ao@, bo@))
            &&& ao@ == bo@ && ap != bp ==> (addr_before(a, b) <==> ap < bp)
            &&& ao@ == bo@ && ap == bp && af != bf ==> (addr_before(a, b) <==> af < bf)
            &&& ao@ == bo@ && ap == bp && af == bf ==> (addr_before(a, b) <==> ac < bc)
        }),
{
    match (a, b) {
        (SocketAddr::V4 { octets, .. }, SocketAddr::V4 { .. }) => {
            lemma_bytes_before_irreflexive(octets@);
        },
        (SocketAddr::V6 { octets, .. }, SocketAddr::V6 { .. }) => {
            lemma_bytes_before_irreflexive(octets@);
        },
        _ => {},
    }
}

/// Of two members the identifiers decide; if they are the same, the incarnations; and then the
/// addresses.
pub proof fn law_order_of_members(a: MemberIdView, b: MemberIdView)
    ensures
        a.id != b.id ==> (MemberId::before(a, b) <==> text_before(a.id, b.id)),
        a.id == b.id && a.incarnation != b.incarnation ==> (MemberId::before(a, b)
            <==> a.incarnation < b.incarnation),
        a.id == b.id && a.incarnation == b.incarnation ==> (MemberId::before(a, b) <==> addr_before(
            a.gossip_addr,
            b.gossip_addr,
        )),
{
    lemma_bytes_before_irreflexive(vstd::utf8::encode_utf8(a.id));
}

/// The IP and the port of an address are its octets and its port, whatever its flow information
/// and scope are.
pub proof fn law_parts_of_an_address(addr: SocketAddr)
    ensures
        match addr {
            SocketAddr::V4 { octets, port } => addr.spec_ip() == IpAddr::V4(octets)
                && addr.spec_port() == port,
            SocketAddr::V6 { octets, port, .. } => addr.spec_ip() == IpAddr::V6(octets)
                && addr.spec_port() == port,
        },
{
}

/// The address made of an IP and a port has that IP and that port, and neither flow information
/// nor a scope.
pub proof fn law_address_made_of_parts(ip: IpAddr, port: u16)
    ensures
        SocketAddr::of(ip, port).spec_ip() == ip,
        SocketAddr::of(ip, port).spec_port() == port,
        SocketAddr::of(ip, port) is V4 <==> ip is V4,
        SocketAddr::of(ip, port) matches SocketAddr::V6 { flowinfo, scope_id, .. } ==> flowinfo == 0
            && scope_id == 0,
{
}

} // verus!
