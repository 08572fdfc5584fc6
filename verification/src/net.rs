//! IPv6-only multicast transport: which interfaces to use and where to send.
//!
//! All peers bind the same UDP port and join the same IPv6 multicast group. By
//! default the group is joined, and sent to, on every IPv6-capable interface, so
//! hosts with several adapters work without having to hand-pick one. An explicit
//! interface index overrides that.

use crate::lists::lemma_filter_from;
use crate::protocol::{
    decode_inverts_encode, foreign_magic_is_rejected, parse_envelope, Envelope, EnvelopeView, MAGIC,
};
use crate::text::{concat2, decimal, digits};
use vstd::prelude::*;

verus! {

/// Default link-local ("ff12") transient multicast group.
pub const DEFAULT_GROUP: [u16; 8] = [0xff12, 0, 0, 0, 0, 0, 0x4c41, 0x4e43];

pub const DEFAULT_PORT: u16 = 45654;

// ---- interfaces -------------------------------------------------------------

/// One address of a network interface of this host.
#[derive(Debug, Clone)]
pub struct Iface {
    pub loopback: bool,
    /// The address is an IPv6 one.
    pub v6: bool,
    pub index: Option<u32>,
    pub name: String,
}

#[verifier::ext_equal]
pub struct IfaceView {
    pub loopback: bool,
    pub v6: bool,
    pub index: Option<u32>,
    pub name: Seq<char>,
}

impl View for Iface {
    type V = IfaceView;

    open spec fn view(&self) -> IfaceView {
        IfaceView { loopback: self.loopback, v6: self.v6, index: self.index, name: self.name@ }
    }
}

impl IfaceView {
    /// It can carry the group: it is not the loopback interface, it has an IPv6
    /// address, which rules out adapters that are down or not configured, and it
    /// has an index.
    pub open spec fn usable(self) -> bool {
        !self.loopback && self.v6 && self.index is Some && self.index->0 != 0
    }
}

/// An interface to join the group on: its index and what it is called.
#[verifier::ext_equal]
pub struct TargetView {
    pub index: u32,
    pub name: Seq<char>,
}

pub open spec fn target(t: (u32, String)) -> TargetView {
    TargetView { index: t.0, name: t.1@ }
}

pub open spec fn target_views(targets: Seq<(u32, String)>) -> Seq<TargetView> {
    targets.map_values(|t: (u32, String)| target(t))
}

pub open spec fn has_index(targets: Seq<TargetView>, index: u32) -> bool {
    exists|i: int| 0 <= i < targets.len() && (#[trigger] targets[i]).index == index
}

/// The usable interfaces in the order of `ifaces`, each under the name of the
/// first address that it is listed with.
pub open spec fn usable_targets(ifaces: Seq<IfaceView>) -> Seq<TargetView>
    decreases ifaces.len(),
{
    if ifaces.len() == 0 {
        Seq::empty()
    } else {
        let front = usable_targets(ifaces.drop_last());
        let last = ifaces.last();
        if last.usable() && !has_index(front, last.index->0) {
            front.push(TargetView { index: last.index->0, name: last.name })
        } else {
            front
        }
    }
}

/// The IPv6-capable interfaces other than loopback, as indices and names.
pub fn multicast_interfaces(ifaces: &Vec<Iface>) -> (r: Vec<(u32, String)>)
    ensures
        target_views(r@) == usable_targets(ifaces@.map_values(|i: Iface| i@)),
{
    let ghost all = ifaces@.map_values(|i: Iface| i@);
    let mut out: Vec<(u32, String)> = Vec::new();
    let mut i: usize = 0;
    assert(target_views(out@) =~= usable_targets(all.take(0)));
    while i < ifaces.len()
        invariant
            i <= ifaces@.len(),
            all == ifaces@.map_values(|i: Iface| i@),
            target_views(out@) == usable_targets(all.take(i as int)),
        decreases ifaces@.len() - i,
    {
        let ifa = &ifaces[i];
        assert(all.take(i + 1).drop_last() =~= all.take(i as int));
        assert(all.take(i + 1).last() == ifa@);
        if !ifa.loopback && ifa.v6 {
            if let Some(index) = ifa.index {
                if index != 0 && !contains_index(&out, index) {
                    let ghost before = target_views(out@);
                    out.push((index, ifa.name.clone()));
                    assert(target_views(out@) =~= before.push(
                        TargetView { index, name: ifa.name@ },
                    ));
                }
            }
        }
        i += 1;
    }
    assert(all.take(i as int) =~= all);
    out
}

fn contains_index(targets: &Vec<(u32, String)>, index: u32) -> (r: bool)
    ensures
        r == has_index(target_views(targets@), index),
{
    let mut i: usize = 0;
    while i < targets.len()
        invariant
            i <= targets@.len(),
            forall|j: int| 0 <= j < i ==> (#[trigger] target_views(targets@)[j]).index != index,
        decreases targets@.len() - i,
    {
        if targets[i].0 == index {
            assert(target_views(targets@)[i as int].index == index);
            return true;
        }
        i += 1;
    }
    false
}

/// The interfaces to join the group on, if `found` were found.
pub open spec fn chosen_targets(iface_index: u32, found: Seq<TargetView>) -> Seq<TargetView> {
    if iface_index == 0 {
        found
    } else {
        seq![TargetView { index: iface_index, name: "index "@ + digits(iface_index as nat) }]
    }
}

/// The interfaces to join the group on. Index 0 means every interface that was
/// found; another index pins that one.
pub fn join_targets(iface_index: u32, found: Vec<(u32, String)>) -> (r: Vec<(u32, String)>)
    ensures
        target_views(r@) == chosen_targets(iface_index, target_views(found@)),
{
    if iface_index != 0 {
        let name = concat2("index ", decimal(iface_index as u64).as_str());
        let mut r: Vec<(u32, String)> = Vec::new();
        r.push((iface_index, name));
        assert(target_views(r@) =~= seq![
            TargetView { index: iface_index, name: "index "@ + digits(iface_index as nat) },
        ]);
        r
    } else {
        found
    }
}

// ---- Net --------------------------------------------------------------------

/// Where one copy of a datagram goes: out of which interface, and with which
/// scope id in the destination address.
#[derive(Debug, Clone, Copy, PartialEq, Eq, Structural)]
pub struct Destination {
    pub iface: u32,
    pub scope_id: u32,
}

/// How sending a datagram turned out.
#[derive(Debug, Clone, Copy, PartialEq, Eq, Structural)]
pub enum SendOutcome {
    /// At least one copy went out.
    Sent,
    /// No copy went out; the attempt with this number was the last to fail.
    Failed(usize),
    /// There was no interface to send on.
    NoInterfaces,
}

/// Link-local and interface-local groups need the outgoing interface in the
/// destination address; groups of wider scope do not. The scope is the low four
/// bits of the first segment.
pub open spec fn link_scoped(first_segment: u16) -> bool {
    first_segment % 16 <= 2
}

pub open spec fn destination(first_segment: u16, iface: u32) -> Destination {
    Destination {
        iface,
        scope_id: if link_scoped(first_segment) {
            iface
        } else {
            0
        },
    }
}

/// Where the copies of a datagram go.
pub open spec fn copies(first_segment: u16, ifaces: Seq<u32>) -> Seq<Destination> {
    ifaces.map_values(|i: u32| destination(first_segment, i))
}

/// The targets on which the group has not been joined yet.
pub open spec fn unjoined(found: Seq<TargetView>, joined: Seq<u32>) -> Seq<TargetView> {
    found.filter(|t: TargetView| !joined.contains(t.index))
}

/// What to report of sending, from how each copy fared.
pub open spec fn outcome_of(sent: Seq<bool>) -> SendOutcome {
    if sent.contains(true) {
        SendOutcome::Sent
    } else if sent.len() == 0 {
        SendOutcome::NoInterfaces
    } else {
        SendOutcome::Failed((sent.len() - 1) as usize)
    }
}

/// The indices of the targets on which joining succeeded.
pub open spec fn succeeded(targets: Seq<TargetView>, outcomes: Seq<bool>) -> Seq<u32>
    decreases targets.len(),
{
    if targets.len() == 0 {
        Seq::empty()
    } else {
        let front = succeeded(targets.drop_last(), outcomes.drop_last());
        if outcomes.last() {
            front.push(targets.last().index)
        } else {
            front
        }
    }
}

/// A membership in a multicast group.
pub struct Net {
    group: [u16; 8],
    port: u16,
    /// Interfaces on which the group was joined. Grows as new interfaces (Wi-Fi
    /// coming up after launch) are discovered.
    send_ifaces: Vec<u32>,
}

impl Net {
    pub closed spec fn segments(&self) -> Seq<u16> {
        self.group@
    }

    pub closed spec fn udp_port(&self) -> u16 {
        self.port
    }

    /// The interfaces that a datagram is sent out of, in this order.
    pub closed spec fn ifaces(&self) -> Seq<u32> {
        self.send_ifaces@
    }

    /// The membership after joining was tried on each of `targets`, with these
    /// outcomes.
    pub fn join(group: [u16; 8], port: u16, targets: &Vec<(u32, String)>, outcomes: &Vec<bool>) -> (r:
        Self)
        requires
            outcomes@.len() == targets@.len(),
        ensures
            r.segments() == group@,
            r.udp_port() == port,
            r.ifaces() == succeeded(target_views(targets@), outcomes@),
    {
        let ghost all = target_views(targets@);
        let mut send_ifaces: Vec<u32> = Vec::new();
        let mut i: usize = 0;
        while i < targets.len()
            invariant
                i <= targets@.len(),
                outcomes@.len() == targets@.len(),
                all == target_views(targets@),
                send_ifaces@ == succeeded(all.take(i as int), outcomes@.take(i as int)),
            decreases targets@.len() - i,
        {
            assert(all.take(i + 1).drop_last() =~= all.take(i as int));
            assert(outcomes@.take(i + 1).drop_last() =~= outcomes@.take(i as int));
            if outcomes[i] {
                send_ifaces.push(targets[i].0);
            }
            i += 1;
        }
        assert(all.take(i as int) =~= all);
        assert(outcomes@.take(i as int) =~= outcomes@);
        Net { group, port, send_ifaces }
    }

    /// Nothing could be joined: the choice is to be left to the system, which
    /// goes by the interface index 0.
    pub fn needs_fallback(&self) -> (r: bool)
        ensures
            r == (self.ifaces().len() == 0),
    {
        self.send_ifaces.len() == 0
    }

    /// Whether the group has been joined on an interface.
    pub fn is_joined(&self, index: u32) -> (r: bool)
        ensures
            r == self.ifaces().contains(index),
    {
        let mut i: usize = 0;
        while i < self.send_ifaces.len()
            invariant
                i <= self.send_ifaces@.len(),
                forall|j: int| 0 <= j < i ==> self.send_ifaces@[j] != index,
            decreases self.send_ifaces@.len() - i,
        {
            if self.send_ifaces[i] == index {
                return true;
            }
            i += 1;
        }
        false
    }

    /// The group was joined on one more interface.
    pub fn add_iface(&mut self, index: u32)
        ensures
            final(self).ifaces() == old(self).ifaces().push(index),
            final(self).segments() == old(self).segments(),
            final(self).udp_port() == old(self).udp_port(),
    {
        self.send_ifaces.push(index);
    }

    /// The interfaces among `found` on which the group has not been joined yet.
    pub fn new_targets(&self, found: Vec<(u32, String)>) -> (r: Vec<(u32, String)>)
        ensures
            target_views(r@) == unjoined(target_views(found@), self.ifaces()),
    {
        let ghost keep = |t: TargetView| !self.ifaces().contains(t.index);
        let ghost all = target_views(found@);
        let mut r: Vec<(u32, String)> = Vec::new();
        let mut i: usize = 0;
        assert(target_views(r@) =~= all.take(0).filter(keep)) by {
            reveal(Seq::filter);
        }
        while i < found.len()
            invariant
                i <= found@.len(),
                all == target_views(found@),
                keep == (|t: TargetView| !self.ifaces().contains(t.index)),
                target_views(r@) == all.take(i as int).filter(keep),
            decreases found@.len() - i,
        {
            assert(all.take(i + 1) =~= all.take(i as int).push(all[i as int]));
            proof {
                all.take(i as int).lemma_filter_push(all[i as int], keep);
            }
            if !self.is_joined(found[i].0) {
                let ghost before = target_views(r@);
                r.push((found[i].0, found[i].1.clone()));
                assert(target_views(r@) =~= before.push(all[i as int]));
            }
            i += 1;
        }
        assert(all.take(i as int) =~= all);
        r
    }

    /// The datagram for an envelope and where copies of it are to be sent: one
    /// out of every joined interface.
    pub fn send(&self, env: &Envelope) -> (r: (Vec<u8>, Vec<Destination>))
        ensures
            r.0@ == env@.bytes(),
            r.1@ == copies(self.segments()[0], self.ifaces()),
    {
        let first = self.group[0];
        assert(first & 0x000f == first % 16) by (bit_vector);
        let scoped = first & 0x000f <= 2;
        let mut to: Vec<Destination> = Vec::new();
        let mut i: usize = 0;
        while i < self.send_ifaces.len()
            invariant
                i <= self.send_ifaces@.len(),
                first == self.group@[0],
                scoped == link_scoped(first),
                to@ == self.send_ifaces@.take(i as int).map_values(|i: u32| destination(first, i)),
            decreases self.send_ifaces@.len() - i,
        {
            let iface = self.send_ifaces[i];
            let scope_id: u32 = if scoped {
                iface
            } else {
                0
            };
            to.push(Destination { iface, scope_id });
            i += 1;
            assert(to@ =~= self.send_ifaces@.take(i as int).map_values(|i: u32| destination(first, i)));
        }
        assert(self.send_ifaces@.take(i as int) =~= self.send_ifaces@);
        (env.encode(), to)
    }

    /// The group's address.
    pub fn group(&self) -> (r: ([u16; 8], u16))
        ensures
            r.0@ == self.segments(),
            r.1 == self.udp_port(),
    {
        (self.group, self.port)
    }
}

/// What to report of sending, from how each copy fared.
pub fn send_outcome(sent: &Vec<bool>) -> (r: SendOutcome)
    ensures
        r == outcome_of(sent@),
{
    let n = sent.len();
    let mut i: usize = 0;
    while i < n
        invariant
            i <= n,
            n == sent@.len(),
            forall|j: int| 0 <= j < i ==> !sent@[j],
        decreases n - i,
    {
        if sent[i] {
            assert(sent@[i as int]);
            return SendOutcome::Sent;
        }
        i += 1;
    }
    if n == 0 {
        SendOutcome::NoInterfaces
    } else {
        SendOutcome::Failed(n - 1)
    }
}

// ---- reader -----------------------------------------------------------------

/// What the socket had to say.
pub enum ReadEvent<'a> {
    /// A datagram came in. Not every sender has an address that can be told.
    Datagram { bytes: &'a [u8], has_sender: bool },
    /// Reading failed.
    Failed { interrupted: bool },
}

/// What the reader does about it.
#[derive(Debug)]
pub enum ReaderStep {
    Deliver(Envelope),
    Skip,
    Stop,
}

#[verifier::ext_equal]
pub enum ReadEventView {
    Datagram { bytes: Seq<u8>, has_sender: bool },
    Failed { interrupted: bool },
}

impl<'a> View for ReadEvent<'a> {
    type V = ReadEventView;

    open spec fn view(&self) -> ReadEventView {
        match *self {
            ReadEvent::Datagram { bytes, has_sender } => ReadEventView::Datagram {
                bytes: bytes@,
                has_sender,
            },
            ReadEvent::Failed { interrupted } => ReadEventView::Failed { interrupted },
        }
    }
}

#[verifier::ext_equal]
pub enum ReaderStepView {
    Deliver(EnvelopeView),
    Skip,
    Stop,
}

impl View for ReaderStep {
    type V = ReaderStepView;

    open spec fn view(&self) -> ReaderStepView {
        match *self {
            ReaderStep::Deliver(env) => ReaderStepView::Deliver(env@),
            ReaderStep::Skip => ReaderStepView::Skip,
            ReaderStep::Stop => ReaderStepView::Stop,
        }
    }
}

pub open spec fn read(event: ReadEventView) -> ReaderStepView {
    match event {
        ReadEventView::Datagram { bytes, has_sender } => match parse_envelope(bytes) {
            Some(env) => if has_sender {
                ReaderStepView::Deliver(env)
            } else {
                ReaderStepView::Skip
            },
            None => ReaderStepView::Skip,
        },
        ReadEventView::Failed { interrupted } => if interrupted {
            ReaderStepView::Skip
        } else {
            ReaderStepView::Stop
        },
    }
}

/// Datagrams of ours are delivered, others are skipped; an interrupted read is
/// tried again, any other failure ends the reader.
pub fn reader_step(event: ReadEvent<'_>) -> (r: ReaderStep)
    ensures
        r@ == read(event@),
{
    match event {
        ReadEvent::Datagram { bytes, has_sender } => match Envelope::decode(bytes) {
            Some(env) => if has_sender {
                ReaderStep::Deliver(env)
            } else {
                ReaderStep::Skip
            },
            None => ReaderStep::Skip,
        },
        ReadEvent::Failed { interrupted } => if interrupted {
            ReaderStep::Skip
        } else {
            ReaderStep::Stop
        },
    }
}

// ---- laws -------------------------------------------------------------------

/// The interfaces to join are usable ones, each once, and none is left out.
pub proof fn targets_are_the_usable_interfaces(ifaces: Seq<IfaceView>)
    ensures
        distinct_indices(usable_targets(ifaces)),
        forall|index: u32| #[trigger]
            has_index(usable_targets(ifaces), index) <==> exists|k: int|
                0 <= k < ifaces.len() && (#[trigger] ifaces[k]).usable() && ifaces[k].index == Some(
                    index,
                ),
        !has_index(usable_targets(ifaces), 0),
        forall|k: int|
            0 <= k < ifaces.len() ==> ((#[trigger] ifaces[k]).usable() <==> !ifaces[k].loopback
                && ifaces[k].v6 && ifaces[k].index is Some && ifaces[k].index != Some(0u32)),
    decreases ifaces.len(),
{
    let out = usable_targets(ifaces);
    if ifaces.len() > 0 {
        let front = ifaces.drop_last();
        let before = usable_targets(front);
        let last = ifaces.last();
        targets_are_the_usable_interfaces(front);
        assert forall|index: u32| #[trigger] has_index(out, index) <==> exists|k: int|
            0 <= k < ifaces.len() && (#[trigger] ifaces[k]).usable() && ifaces[k].index == Some(
                index,
            ) by {
            if has_index(before, index) {
                let k = choose|k: int|
                    0 <= k < front.len() && (#[trigger] front[k]).usable() && front[k].index
                        == Some(index);
                assert(ifaces[k] == front[k]);
                let j = choose|j: int| 0 <= j < before.len() && (#[trigger] before[j]).index
                    == index;
                assert(out[j] == before[j]);
            }
            if last.usable() && last.index == Some(index) {
                assert(ifaces[ifaces.len() - 1] == last);
                if !has_index(before, index) {
                    assert(out[before.len() as int].index == index);
                }
            }
            if has_index(out, index) {
                let j = choose|j: int| 0 <= j < out.len() && (#[trigger] out[j]).index == index;
                if j < before.len() {
                    assert(before[j].index == index);
                    let k = choose|k: int|
                        0 <= k < front.len() && (#[trigger] front[k]).usable() && front[k].index
                            == Some(index);
                    assert(ifaces[k] == front[k]);
                } else {
                    assert(ifaces[ifaces.len() - 1] == last);
                }
            }
            if exists|k: int|
                0 <= k < ifaces.len() && (#[trigger] ifaces[k]).usable() && ifaces[k].index == Some(
                    index,
                ) {
                let k = choose|k: int|
                    0 <= k < ifaces.len() && (#[trigger] ifaces[k]).usable() && ifaces[k].index
                        == Some(index);
                if k < front.len() {
                    assert(front[k] == ifaces[k]);
                    assert(has_index(before, index));
                }
            }
        }
        assert forall|i: int, j: int| 0 <= i < j < out.len() implies (#[trigger] out[i]).index != (
        #[trigger] out[j]).index by {
            assert(out[i] == before[i]);
            if j < before.len() {
                assert(out[j] == before[j]);
            }
        }
    }
}

/// A group of link scope is sent to with the interface in the address, any other
/// group without.
pub proof fn scope_id_names_the_interface_of_link_groups(first_segment: u16, iface: u32)
    ensures
        destination(first_segment, iface).iface == iface,
        first_segment % 16 <= 2 ==> destination(first_segment, iface).scope_id == iface,
        first_segment % 16 > 2 ==> destination(first_segment, iface).scope_id == 0,
{
}

/// No two targets name the same interface.
pub open spec fn distinct_indices(targets: Seq<TargetView>) -> bool {
    forall|i: int, j: int|
        0 <= i < j < targets.len() ==> (#[trigger] targets[i]).index != (#[trigger] targets[j]).index
}

/// Joining on distinct interfaces lists each at most once, and only interfaces
/// on which joining succeeded.
pub proof fn joined_interfaces_are_distinct(targets: Seq<TargetView>, outcomes: Seq<bool>)
    requires
        distinct_indices(targets),
        outcomes.len() == targets.len(),
    ensures
        succeeded(targets, outcomes).no_duplicates(),
        forall|index: u32| #[trigger]
            succeeded(targets, outcomes).contains(index) <==> exists|k: int|
                0 <= k < targets.len() && (#[trigger] targets[k]).index == index && outcomes[k],
    decreases targets.len(),
{
    let out = succeeded(targets, outcomes);
    if targets.len() > 0 {
        let n = targets.len() - 1;
        let front = targets.drop_last();
        let oks = outcomes.drop_last();
        let before = succeeded(front, oks);
        assert(distinct_indices(front)) by {
            assert forall|i: int, j: int| 0 <= i < j < front.len() implies (
            #[trigger] front[i]).index != (#[trigger] front[j]).index by {
                assert(targets[i].index != targets[j].index);
            }
        }
        joined_interfaces_are_distinct(front, oks);
        assert(!before.contains(targets[n].index)) by {
            if before.contains(targets[n].index) {
                let k = choose|k: int|
                    0 <= k < front.len() && (#[trigger] front[k]).index == targets[n].index && oks[k];
                assert(targets[k].index != targets[n].index);
            }
        }
        assert forall|index: u32| #[trigger] out.contains(index) <==> exists|k: int|
            0 <= k < targets.len() && (#[trigger] targets[k]).index == index && outcomes[k] by {
            if before.contains(index) {
                let k = choose|k: int|
                    0 <= k < front.len() && (#[trigger] front[k]).index == index && oks[k];
                assert(targets[k].index == index && outcomes[k]);
                let j = choose|j: int| 0 <= j < before.len() && before[j] == index;
                assert(out[j] == index);
            }
            if outcomes[n] && targets[n].index == index {
                assert(out[before.len() as int] == index);
            }
            if out.contains(index) {
                let j = choose|j: int| 0 <= j < out.len() && out[j] == index;
                if j < before.len() {
                    assert(before[j] == index);
                }
            }
            if exists|k: int|
                0 <= k < targets.len() && (#[trigger] targets[k]).index == index && outcomes[k] {
                let k = choose|k: int|
                    0 <= k < targets.len() && (#[trigger] targets[k]).index == index && outcomes[k];
                if k < n {
                    assert(front[k].index == index && oks[k]);
                }
            }
        }
        assert forall|i: int, j: int| 0 <= i < out.len() && 0 <= j < out.len() && i != j implies out[i]
            != out[j] by {
            if i < before.len() {
                assert(before.contains(before[i]));
            }
            if j < before.len() {
                assert(before.contains(before[j]));
            }
        }
    }
}

/// Joining what a later scan finds to be new keeps every interface listed once.
pub proof fn rescanning_never_joins_twice(joined: Seq<u32>, found: Seq<TargetView>)
    requires
        joined.no_duplicates(),
        distinct_indices(found),
    ensures
        (joined + found.filter(|t: TargetView| !joined.contains(t.index)).map_values(
            |t: TargetView| t.index,
        )).no_duplicates(),
{
    let keep = |t: TargetView| !joined.contains(t.index);
    let idx = |t: TargetView| t.index;
    let new = found.filter(keep).map_values(idx);
    assert forall|i: int, j: int| 0 <= i < j < new.len() implies new[i] != new[j] by {
        let a = lemma_filter_from(found, keep, i);
        let b = lemma_filter_from(found, keep, j);
        assert(a != b);
        assert(found[a].index != found[b].index);
    }
    let after = joined + new;
    assert forall|i: int, j: int| 0 <= i < after.len() && 0 <= j < after.len() && i != j implies after[i]
        != after[j] by {
        let n = joined.len() as int;
        if i < n && j >= n {
            found.lemma_filter_pred(keep, j - n);
            assert(joined.contains(joined[i]));
        } else if i >= n && j < n {
            found.lemma_filter_pred(keep, i - n);
            assert(joined.contains(joined[j]));
        } else if i >= n && j >= n {
            assert(new[i - n] != new[j - n]);
        }
    }
}

/// Joining what a later scan finds to be new keeps every interface listed once,
/// whichever of the joins fail.
pub proof fn rescanning_lists_what_worked_once(
    joined: Seq<u32>,
    found: Seq<TargetView>,
    outcomes: Seq<bool>,
)
    requires
        joined.no_duplicates(),
        distinct_indices(found),
        outcomes.len() == found.filter(|t: TargetView| !joined.contains(t.index)).len(),
    ensures
        (joined + succeeded(
            found.filter(|t: TargetView| !joined.contains(t.index)),
            outcomes,
        )).no_duplicates(),
{
    let keep = |t: TargetView| !joined.contains(t.index);
    let new = found.filter(keep);
    assert forall|i: int, j: int| 0 <= i < j < new.len() implies (#[trigger] new[i]).index != (
    #[trigger] new[j]).index by {
        let a = lemma_filter_from(found, keep, i);
        let b = lemma_filter_from(found, keep, j);
        assert(a != b);
        assert(found[a].index != found[b].index);
    }
    joined_interfaces_are_distinct(new, outcomes);
    let added = succeeded(new, outcomes);
    assert forall|k: int| 0 <= k < added.len() implies !joined.contains(#[trigger] added[k]) by {
        assert(added.contains(added[k]));
        let j = choose|j: int|
            0 <= j < new.len() && (#[trigger] new[j]).index == added[k] && outcomes[j];
        let i = lemma_filter_from(found, keep, j);
    }
    let after = joined + added;
    assert forall|i: int, j: int| 0 <= i < after.len() && 0 <= j < after.len() && i != j implies after[i]
        != after[j] by {
        let n = joined.len() as int;
        if i < n && j >= n {
            assert(joined.contains(joined[i]));
            assert(!joined.contains(added[j - n]));
        } else if i >= n && j < n {
            assert(joined.contains(joined[j]));
            assert(!joined.contains(added[i - n]));
        }
    }
}

/// An interface is known by the name that comes with the first of its addresses
/// that can carry the group.
pub proof fn targets_are_named_by_their_first_address(ifaces: Seq<IfaceView>, i: int) -> (k: int)
    requires
        0 <= i < usable_targets(ifaces).len(),
    ensures
        0 <= k < ifaces.len(),
        ifaces[k].usable(),
        ifaces[k].index == Some(usable_targets(ifaces)[i].index),
        ifaces[k].name == usable_targets(ifaces)[i].name,
        forall|j: int|
            0 <= j < k && (#[trigger] ifaces[j]).usable() ==> ifaces[j].index != ifaces[k].index,
    decreases ifaces.len(),
{
    if ifaces.len() == 0 {
        0
    } else {
        let front = ifaces.drop_last();
        let before = usable_targets(front);
        if i < before.len() {
            let k = targets_are_named_by_their_first_address(front, i);
            assert(front[k] == ifaces[k]);
            assert forall|j: int| 0 <= j < k && (#[trigger] ifaces[j]).usable() implies ifaces[j].index
                != ifaces[k].index by {
                assert(front[j] == ifaces[j]);
            }
            k
        } else {
            let k = ifaces.len() - 1;
            targets_are_the_usable_interfaces(front);
            assert forall|j: int| 0 <= j < k && (#[trigger] ifaces[j]).usable() implies ifaces[j].index
                != ifaces[k].index by {
                assert(front[j] == ifaces[j]);
                if ifaces[j].index == ifaces[k].index {
                    assert(has_index(before, ifaces[k].index->0));
                }
            }
            k
        }
    }
}

/// The group is joined on everything that was found, unless an index pins one
/// interface, which is then the only one.
pub proof fn an_index_pins_one_interface(iface_index: u32, found: Seq<TargetView>)
    ensures
        iface_index == 0 ==> chosen_targets(iface_index, found) == found,
        iface_index != 0 ==> {
            let chosen = chosen_targets(iface_index, found);
            &&& chosen.len() == 1
            &&& chosen[0].index == iface_index
            &&& chosen[0].name == "index "@ + digits(iface_index as nat)
        },
{
}

/// The interfaces that are joined are listed in the order in which joining was
/// tried: trying more adds at the end, if it succeeds, and changes nothing else.
pub proof fn interfaces_are_listed_as_they_are_joined(
    targets: Seq<TargetView>,
    outcomes: Seq<bool>,
    next: TargetView,
)
    requires
        outcomes.len() == targets.len(),
    ensures
        succeeded(targets.push(next), outcomes.push(true)) == succeeded(targets, outcomes).push(
            next.index,
        ),
        succeeded(targets.push(next), outcomes.push(false)) == succeeded(targets, outcomes),
        succeeded(Seq::empty(), Seq::empty()).len() == 0,
{
    assert(targets.push(next).drop_last() =~= targets);
    assert(outcomes.push(true).drop_last() =~= outcomes);
    assert(outcomes.push(false).drop_last() =~= outcomes);
}

/// One copy of a datagram goes out of every joined interface, and no other.
pub proof fn every_interface_gets_a_copy(first_segment: u16, ifaces: Seq<u32>, i: int)
    ensures
        copies(first_segment, ifaces).len() == ifaces.len(),
        0 <= i < ifaces.len() ==> {
            let to = copies(first_segment, ifaces)[i];
            &&& to.iface == ifaces[i]
            &&& first_segment % 16 <= 2 ==> to.scope_id == ifaces[i]
            &&& first_segment % 16 > 2 ==> to.scope_id == 0
        },
{
}

/// What is new is what was found and is not joined, and nothing else.
pub proof fn new_interfaces_are_those_not_joined(
    found: Seq<TargetView>,
    joined: Seq<u32>,
    t: TargetView,
)
    ensures
        unjoined(found, joined).contains(t) <==> found.contains(t) && forall|i: int|
            0 <= i < joined.len() ==> #[trigger] joined[i] != t.index,
{
    let keep = |t: TargetView| !joined.contains(t.index);
    let new = unjoined(found, joined);
    if new.contains(t) {
        let j = choose|j: int| 0 <= j < new.len() && new[j] == t;
        let i = lemma_filter_from(found, keep, j);
        assert(found.contains(t));
        assert forall|i: int| 0 <= i < joined.len() implies #[trigger] joined[i] != t.index by {
            assert(joined.contains(joined[i]));
        }
    }
    if found.contains(t) && !joined.contains(t.index) {
        let i = choose|i: int| 0 <= i < found.len() && found[i] == t;
        found.lemma_filter_contains(keep, i);
    }
}

/// Sending counts as done if any copy went out, and as failed if none did; that
/// there was nothing to send on is told apart.
pub proof fn one_copy_is_enough(sent: Seq<bool>, i: int)
    requires
        sent.len() <= usize::MAX,
    ensures
        0 <= i < sent.len() && sent[i] ==> outcome_of(sent) == SendOutcome::Sent,
        sent.len() > 0 && (forall|k: int| 0 <= k < sent.len() ==> !#[trigger] sent[k])
            ==> outcome_of(sent) == SendOutcome::Failed((sent.len() - 1) as usize),
        sent.len() == 0 ==> outcome_of(sent) == SendOutcome::NoInterfaces,
{
    if 0 <= i < sent.len() && sent[i] {
        assert(sent.contains(true));
    }
}

/// What somebody sent is delivered as it was sent, whatever follows it in the
/// datagram; what is not ours, and what comes from nowhere, is skipped.
pub proof fn what_is_sent_is_delivered(env: EnvelopeView, behind: Seq<u8>, bytes: Seq<u8>)
    requires
        env.fits(),
    ensures
        env.magic == 0x4C41_4E43 ==> read(
            ReadEventView::Datagram { bytes: env.bytes() + behind, has_sender: true },
        ) == ReaderStepView::Deliver(env),
        env.magic != 0x4C41_4E43 ==> read(
            ReadEventView::Datagram { bytes: env.bytes() + behind, has_sender: true },
        ) == ReaderStepView::Skip,
        read(ReadEventView::Datagram { bytes, has_sender: false }) == ReaderStepView::Skip,
        !(read(ReadEventView::Datagram { bytes, has_sender: true }) is Stop),
{
    if env.magic == MAGIC {
        decode_inverts_encode(env, behind);
    } else {
        foreign_magic_is_rejected(env, behind);
    }
}

/// Only a failure that is no interruption ends the reader.
pub proof fn interruptions_are_not_the_end(event: ReadEventView)
    ensures
        read(event) == ReaderStepView::Stop <==> event == (ReadEventView::Failed {
            interrupted: false,
        }),
{
}

} // verus!
