//! A map keyed by packet: path, packet number space and packet number.
use crate::model::PacketType;
use std::collections::HashMap;
use vstd::prelude::*;

verus! {

broadcast use vstd::std_specs::hash::group_hash_axioms;

/// Identifies a packet: the path it went on, its packet number space and its number.
#[derive(Debug, Clone, Copy, PartialEq, Eq, Structural)]
pub struct PacketKey {
    pub path_id: u64,
    pub packet_type: PacketType,
    pub packet_number: u64,
}

/// The slot of a path and packet number within the map of one space.
pub open spec fn slot(path_id: u64, packet_number: u64) -> u128 {
    ((path_id as u128) << 64u128) | (packet_number as u128)
}

proof fn lemma_slot_injective(a: u64, b: u64, c: u64, d: u64)
    ensures
        slot(a, b) == slot(c, d) ==> a == c && b == d,
{
    assert((((a as u128) << 64u128) | (b as u128)) == (((c as u128) << 64u128) | (d as u128))
        ==> a == c && b == d) by (bit_vector);
}

fn slot_of(path_id: u64, packet_number: u64) -> (res: u128)
    ensures
        res == slot(path_id, packet_number),
{
    ((path_id as u128) << 64u128) | (packet_number as u128)
}

/// A map from packets to values of type `V`.
pub struct PacketTable<V> {
    initial: HashMap<u128, V>,
    handshake: HashMap<u128, V>,
    zero_rtt: HashMap<u128, V>,
    one_rtt: HashMap<u128, V>,
    retry: HashMap<u128, V>,
    version_negotiation: HashMap<u128, V>,
    stateless_reset: HashMap<u128, V>,
    unknown: HashMap<u128, V>,
    count: usize,
    contents: Ghost<Map<PacketKey, V>>,
}

impl<V> PacketTable<V> {
    /// The map of one packet number space, by slot.
    pub closed spec fn space(&self, t: PacketType) -> Map<u128, V> {
        match t {
            PacketType::Initial => self.initial@,
            PacketType::Handshake => self.handshake@,
            PacketType::ZeroRtt => self.zero_rtt@,
            PacketType::OneRtt => self.one_rtt@,
            PacketType::Retry => self.retry@,
            PacketType::VersionNegotiation => self.version_negotiation@,
            PacketType::StatelessReset => self.stateless_reset@,
            PacketType::Unknown => self.unknown@,
        }
    }

    /// What the table holds.
    pub closed spec fn view(&self) -> Map<PacketKey, V> {
        self.contents@
    }

    /// The table's internal consistency, which every table keeps.
    #[verifier::type_invariant]
    pub closed spec fn wf(&self) -> bool {
        &&& self.contents@.dom().finite()
        &&& self.count == self.contents@.dom().len()
        &&& forall|k: PacketKey|
            #![trigger self.contents@.contains_key(k)]
            self.contents@.contains_key(k) <==> self.space(k.packet_type).contains_key(
                slot(k.path_id, k.packet_number),
            )
        &&& forall|k: PacketKey|
            #![trigger self.contents@.contains_key(k)]
            self.contents@.contains_key(k) ==> self.space(k.packet_type)[slot(
                k.path_id,
                k.packet_number,
            )] == self.contents@[k]
        &&& forall|t: PacketType, s: u128|
            #![trigger self.space(t).contains_key(s)]
            self.space(t).contains_key(s) ==> self.contents@.contains_key(
                PacketKey { path_id: (s >> 64u128) as u64, packet_type: t, packet_number: s as u64 },
            ) && slot((s >> 64u128) as u64, s as u64) == s
    }

    /// An empty table.
    pub fn new() -> (res: Self)
        ensures
            res@ == Map::<PacketKey, V>::empty(),
    {
        PacketTable {
            initial: HashMap::new(),
            handshake: HashMap::new(),
            zero_rtt: HashMap::new(),
            one_rtt: HashMap::new(),
            retry: HashMap::new(),
            version_negotiation: HashMap::new(),
            stateless_reset: HashMap::new(),
            unknown: HashMap::new(),
            count: 0,
            contents: Ghost(Map::empty()),
        }
    }

    /// The number of packets in the table.
    pub fn len(&self) -> (res: usize)
        ensures
            res == self@.dom().len(),
    {
        proof {
            use_type_invariant(self);
        }
        self.count
    }

    /// Whether the table is empty.
    pub fn is_empty(&self) -> (res: bool)
        ensures
            res == (self@.dom().len() == 0),
    {
        proof {
            use_type_invariant(self);
        }
        self.count == 0
    }

    /// The value stored for `k`, if any.
    pub fn get(&self, k: &PacketKey) -> (res: Option<&V>)
        ensures
            match res {
                Some(v) => self@.contains_key(*k) && *v == self@[*k],
                None => !self@.contains_key(*k),
            },
    {
        proof {
            use_type_invariant(self);
        }
        let s = slot_of(k.path_id, k.packet_number);
        let res = match k.packet_type {
            PacketType::Initial => self.initial.get(&s),
            PacketType::Handshake => self.handshake.get(&s),
            PacketType::ZeroRtt => self.zero_rtt.get(&s),
            PacketType::OneRtt => self.one_rtt.get(&s),
            PacketType::Retry => self.retry.get(&s),
            PacketType::VersionNegotiation => self.version_negotiation.get(&s),
            PacketType::StatelessReset => self.stateless_reset.get(&s),
            PacketType::Unknown => self.unknown.get(&s),
        };
        proof {
            assert(self@.contains_key(*k) == self.space(k.packet_type).contains_key(s));
            if self@.contains_key(*k) {
                assert(self.space(k.packet_type)[s] == self@[*k]);
            }
        }
        res
    }

    /// Whether the table holds `k`.
    pub fn contains_key(&self, k: &PacketKey) -> (res: bool)
        ensures
            res == self@.contains_key(*k),
    {
        self.get(k).is_some()
    }

    /// Stores `v` for `k`, replacing any earlier value.
    pub fn insert(&mut self, k: PacketKey, v: V)
        requires
            old(self)@.contains_key(k) || old(self)@.dom().len() < usize::MAX,
        ensures
            final(self)@ == old(self)@.insert(k, v),
            final(self)@.dom().len() == old(self)@.dom().len() + (if old(self)@.contains_key(k) {
                0int
            } else {
                1int
            }),
    {
        proof {
            use_type_invariant(&*self);
        }
        let ghost prev = *self;
        let mut taken = Self::new();
        std::mem::swap(&mut taken, self);
        let PacketTable {
            mut initial,
            mut handshake,
            mut zero_rtt,
            mut one_rtt,
            mut retry,
            mut version_negotiation,
            mut stateless_reset,
            mut unknown,
            mut count,
            contents,
        } = taken;
        let s = slot_of(k.path_id, k.packet_number);
        let ghost old_contents = contents@;
        let ghost new_contents = old_contents.insert(k, v);
        let previous = match k.packet_type {
            PacketType::Initial => initial.insert(s, v),
            PacketType::Handshake => handshake.insert(s, v),
            PacketType::ZeroRtt => zero_rtt.insert(s, v),
            PacketType::OneRtt => one_rtt.insert(s, v),
            PacketType::Retry => retry.insert(s, v),
            PacketType::VersionNegotiation => version_negotiation.insert(s, v),
            PacketType::StatelessReset => stateless_reset.insert(s, v),
            PacketType::Unknown => unknown.insert(s, v),
        };
        proof {
            assert(previous.is_none() == !old_contents.contains_key(k));
            if old_contents.contains_key(k) {
                assert(new_contents.dom() =~= old_contents.dom());
            } else {
                assert(new_contents.dom() =~= old_contents.dom().insert(k));
            }
        }
        if previous.is_none() {
            count = count + 1;
        }
        proof {
            let next = PacketTable {
                initial,
                handshake,
                zero_rtt,
                one_rtt,
                retry,
                version_negotiation,
                stateless_reset,
                unknown,
                count,
                contents: Ghost(new_contents),
            };
            next.lemma_after_insert(&prev, k, v, s);
        }
        *self = PacketTable {
            initial,
            handshake,
            zero_rtt,
            one_rtt,
            retry,
            version_negotiation,
            stateless_reset,
            unknown,
            count,
            contents: Ghost(new_contents),
        };
    }

    proof fn lemma_after_insert(&self, prev: &Self, k: PacketKey, v: V, s: u128)
        requires
            prev.wf(),
            s == slot(k.path_id, k.packet_number),
            self.contents@ == prev.contents@.insert(k, v),
            self.count == self.contents@.dom().len(),
            self.contents@.dom().finite(),
            self.space(k.packet_type) == prev.space(k.packet_type).insert(s, v),
            forall|t: PacketType| t != k.packet_type ==> #[trigger] self.space(t) == prev.space(t),
        ensures
            self.wf(),
    {
        assert(#[verifier::truncate] ((s >> 64u128) as u64) == k.path_id && #[verifier::truncate] (s as u64) == k.packet_number) by {
            let a = k.path_id;
            let b = k.packet_number;
            assert((((((a as u128) << 64u128) | (b as u128)) >> 64u128) as u64) == a
                && ((((a as u128) << 64u128) | (b as u128)) as u64) == b) by (bit_vector);
        }
        assert forall|q: PacketKey| #![trigger self.contents@.contains_key(q)]
            self.contents@.contains_key(q) <==> self.space(q.packet_type).contains_key(
                slot(q.path_id, q.packet_number),
            ) by {
            lemma_slot_injective(q.path_id, q.packet_number, k.path_id, k.packet_number);
            assert(prev.contents@.contains_key(q) <==> prev.space(q.packet_type).contains_key(
                slot(q.path_id, q.packet_number)));
        }
        assert forall|q: PacketKey| #![trigger self.contents@.contains_key(q)]
            self.contents@.contains_key(q) implies self.space(q.packet_type)[slot(
                q.path_id,
                q.packet_number,
            )] == self.contents@[q] by {
            lemma_slot_injective(q.path_id, q.packet_number, k.path_id, k.packet_number);
            if q != k {
                assert(prev.contents@.contains_key(q));
            }
        }
        assert forall|t: PacketType, x: u128| #![trigger self.space(t).contains_key(x)]
            self.space(t).contains_key(x) implies self.contents@.contains_key(
                PacketKey {
                    path_id: #[verifier::truncate] ((x >> 64u128) as u64),
                    packet_type: t,
                    packet_number: #[verifier::truncate] (x as u64),
                },
            ) && slot(#[verifier::truncate] ((x >> 64u128) as u64), #[verifier::truncate] (x as u64)) == x by {
            if t == k.packet_type && x == s {
            } else {
                assert(prev.space(t).contains_key(x));
            }
        }
    }
}

} // verus!
