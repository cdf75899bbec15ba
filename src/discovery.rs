//! Address discovery: the client's bit-set of known server addresses, the
//! random choice of a free address by a joining server, and the client's
//! tally of the replies to one round.

use vstd::prelude::*;

use crate::header::{HEADER_SIZE, MIC_SIZE};

verus! {

/// The number of addresses that one byte of the bit-set holds.
pub const ADDRESSES_PER_BYTE: usize = 8;

/// The maximum number of addresses on one network. Address 0 always
/// represents the client.
pub const MAX_ADDRESSES: usize = 256;

/// The minimum size of all payloads on the data link layer given the use of
/// discovery.
pub const MIN_PAYLOAD_SIZE: usize = MAX_ADDRESSES / ADDRESSES_PER_BYTE;

/// The minimum size of all packets ((header + payload length) + payload +
/// MIC) on the data link layer given the use of discovery.
pub const MIN_PACKET_SIZE: usize = HEADER_SIZE + MIN_PAYLOAD_SIZE + MIC_SIZE;

/// Whether bit `k` of byte `x` is set.
pub open spec fn bit(x: u8, k: u8) -> bool {
    x & (1u8 << k) != 0
}

/// Whether an address is marked in a 32 byte bit-set: bit `a % 8` of byte
/// `a / 8`.
pub open spec fn marked(bytes: Seq<u8>, a: int) -> bool {
    bit(bytes[a / 8], (a % 8) as u8)
}

/// The payload broadcast by a client so that servers whose address it does
/// not know yet can reply with one they request.
pub struct Identify {
    pub addresses: [u8; MIN_PAYLOAD_SIZE],
}

/// The payload a server replies with, requesting an address to be assigned
/// to it.
#[derive(Debug, Clone, Copy, PartialEq, Eq, Structural)]
pub struct Identified {
    /// The server address desired by the server.
    pub server_address: u8,
    /// A bit field of the ports that the server supports, e.g. bit 1 says
    /// that port 1 is supported.
    pub server_ports: u8,
}

impl View for Identify {
    type V = Set<u8>;

    /// The addresses known to the client.
    open spec fn view(&self) -> Set<u8> {
        Set::new(|a: u8| marked(self.addresses@, a as int))
    }
}

/// Walks the 256 addresses in order, telling for each whether it is known
/// to the client.
pub struct AddressesIter<'d> {
    next_address: usize,
    addresses: &'d [u8],
}

impl<'d> AddressesIter<'d> {
    pub closed spec fn wf(&self) -> bool {
        self.next_address <= MAX_ADDRESSES && self.addresses@.len() == MIN_PAYLOAD_SIZE
    }

    /// The number of addresses already walked.
    pub closed spec fn position(&self) -> nat {
        self.next_address as nat
    }

    /// For each address not yet walked, in order, whether it is known.
    pub closed spec fn remaining(&self) -> Seq<bool> {
        Seq::new(
            (MAX_ADDRESSES - self.next_address) as nat,
            |k: int| marked(self.addresses@, self.next_address + k),
        )
    }

    /// Tells whether the next address is known to the client, or `None`
    /// once all 256 have been walked.
    pub fn next(&mut self) -> (r: Option<bool>)
        requires
            old(self).wf(),
        ensures
            final(self).wf(),
            old(self).remaining().len() == 0 ==> r is None && final(self).position() == old(
                self,
            ).position(),
            old(self).remaining().len() > 0 ==> r == Some(old(self).remaining()[0])
                && final(self).position() == old(self).position() + 1,
            final(self).remaining() == if old(self).remaining().len() == 0 {
                old(self).remaining()
            } else {
                old(self).remaining().drop_first()
            },
    {
        if self.next_address < MAX_ADDRESSES {
            let a = self.next_address;
            let item = self.addresses[a / ADDRESSES_PER_BYTE] & (1u8 << ((a % ADDRESSES_PER_BYTE)
                as u8)) != 0;
            self.next_address = a + 1;
            assert(final(self).remaining() =~= old(self).remaining().drop_first());
            Some(item)
        } else {
            None
        }
    }
}

proof fn lemma_set_bit(x: u8, j: u8, k: u8)
    requires
        j < 8,
        k < 8,
    ensures
        bit(x | (1u8 << j), k) == (bit(x, k) || j == k),
{
    assert((x | (1u8 << j)) & (1u8 << k) != 0 <==> (x & (1u8 << k) != 0 || j == k))
        by (bit_vector)
        requires
            j < 8,
            k < 8,
    ;
}

impl Identify {
    /// A bit-set that knows only address 0, the client's.
    pub fn new() -> (r: Identify)
        ensures
            r@ == set![0u8],
    {
        let mut r = Identify { addresses: [0u8; MIN_PAYLOAD_SIZE] };
        r.set_address(0);
        proof {
            assert forall|a: u8| !marked([0u8; MIN_PAYLOAD_SIZE]@, a as int) by {
                assert(0u8 & (1u8 << (a % 8)) == 0) by (bit_vector);
            }
            assert(r@ =~= set![0u8]);
        }
        r
    }

    /// Returns true if a given address is known to the client.
    pub fn is_address_set(&self, address: u8) -> (r: bool)
        ensures
            r == self@.contains(address),
    {
        self.addresses[address as usize / ADDRESSES_PER_BYTE] & (1u8 << (address % (
        ADDRESSES_PER_BYTE as u8))) != 0
    }

    /// Walks the addresses from 0 to 255, telling for each whether it is
    /// known to the client.
    pub fn iter(&self) -> (r: AddressesIter<'_>)
        ensures
            r.wf(),
            r.position() == 0,
            r.remaining().len() == MAX_ADDRESSES,
            forall|a: u8| #[trigger] r.remaining()[a as int] == self@.contains(a),
    {
        AddressesIter { next_address: 0, addresses: self.addresses.as_slice() }
    }

    /// Adds an address to those known to the client.
    pub fn set_address(&mut self, address: u8)
        ensures
            final(self)@ == old(self)@.insert(address),
    {
        let i = address as usize / ADDRESSES_PER_BYTE;
        let j = address % (ADDRESSES_PER_BYTE as u8);
        self.addresses[i] = self.addresses[i] | (1u8 << j);
        proof {
            assert forall|a: u8| final(self)@.contains(a) == old(self)@.insert(address).contains(
                a,
            ) by {
                if a / 8 == address / 8 {
                    lemma_set_bit(old(self).addresses@[i as int], j, a % 8);
                }
            }
            assert(final(self)@ =~= old(self)@.insert(address));
        }
    }
}

/// The positions, in order, of the entries of `s` that are false.
pub open spec fn free_slots(s: Seq<bool>) -> Seq<nat>
    decreases s.len(),
{
    if s.len() == 0 {
        seq![]
    } else {
        let rest = free_slots(s.drop_last());
        if s.last() {
            rest
        } else {
            rest.push((s.len() - 1) as nat)
        }
    }
}

proof fn lemma_free_slots(s: Seq<bool>)
    ensures
        forall|k: int|
            0 <= k < free_slots(s).len() ==> #[trigger] free_slots(s)[k] < s.len() && !s[free_slots(
                s,
            )[k] as int],
        free_slots(s).len() <= s.len(),
    decreases s.len(),
{
    if s.len() > 0 {
        lemma_free_slots(s.drop_last());
    }
}

/// The number of times `a` occurs in `s`.
pub open spec fn count_of(s: Seq<u8>, a: u8) -> nat
    decreases s.len(),
{
    if s.len() == 0 {
        0
    } else {
        count_of(s.drop_last(), a) + if s.last() == a {
            1nat
        } else {
            0nat
        }
    }
}

/// The addresses known after a round: those known before, and each address
/// that exactly one reply of the round asked for.
pub open spec fn after_round(known: Set<u8>, replies: Seq<u8>) -> Set<u8> {
    known.union(Set::new(|a: u8| count_of(replies, a) == 1))
}

proof fn lemma_count_absent(s: Seq<u8>, a: u8)
    requires
        forall|i: int| 0 <= i < s.len() ==> s[i] != a,
    ensures
        count_of(s, a) == 0,
    decreases s.len(),
{
    if s.len() > 0 {
        lemma_count_absent(s.drop_last(), a);
    }
}

/// After a round in which every replying server chose an address that the
/// client did not know, no address that the client knows was chosen by two
/// of those servers.
pub proof fn lemma_round_keeps_addresses_unique(known: Set<u8>, replies: Seq<u8>)
    requires
        forall|i: int| 0 <= i < replies.len() ==> !known.contains(#[trigger] replies[i]),
    ensures
        forall|a: u8| #[trigger] after_round(known, replies).contains(a) ==> count_of(replies, a)
            <= 1,
{
    assert forall|a: u8| #[trigger] after_round(known, replies).contains(a) implies count_of(
        replies,
        a,
    ) <= 1 by {
        if known.contains(a) {
            lemma_count_absent(replies, a);
        }
    }
}

fn count_replies(replies: &[u8], a: u8) -> (r: usize)
    ensures
        r == count_of(replies@, a),
{
    let mut r: usize = 0;
    let mut i: usize = 0;
    while i < replies.len()
        invariant
            i <= replies@.len(),
            r <= i,
            r == count_of(replies@.take(i as int), a),
        decreases replies.len() - i,
    {
        assert(replies@.take(i + 1).drop_last() =~= replies@.take(i as int));
        if replies[i] == a {
            r = r + 1;
        }
        i = i + 1;
    }
    assert(replies@.take(i as int) =~= replies@);
    r
}

impl Identify {
    /// Whether a server should reply to this request: it has no address
    /// yet, or the client does not know the one that it has.
    pub fn should_reply(&self, assigned: Option<u8>) -> (r: bool)
        ensures
            r == match assigned {
                None => true,
                Some(a) => !self@.contains(a),
            },
    {
        match assigned {
            None => true,
            Some(a) => !self.is_address_set(a),
        }
    }

    /// Records the addresses that the servers asked for in one round. Each
    /// address asked for by exactly one server becomes known; an address
    /// asked for by two or more is a collision and stays unknown. Returns
    /// whether the round was free of collisions.
    pub fn record_replies(&mut self, replies: &[u8]) -> (no_collision: bool)
        ensures
            final(self)@ == after_round(old(self)@, replies@),
            no_collision == forall|a: u8| count_of(replies@, a) <= 1,
    {
        let mut no_collision = true;
        let mut a: usize = 0;
        while a < MAX_ADDRESSES
            invariant
                a <= MAX_ADDRESSES,
                self@ == old(self)@.union(
                    Set::new(|x: u8| (x as nat) < a && count_of(replies@, x) == 1),
                ),
                no_collision == forall|x: u8| (x as nat) < a ==> count_of(replies@, x) <= 1,
            decreases MAX_ADDRESSES - a,
        {
            let c = count_replies(replies, a as u8);
            let ghost before = self@;
            if c == 1 {
                self.set_address(a as u8);
            } else if c > 1 {
                no_collision = false;
            }
            assert(self@ =~= old(self)@.union(
                Set::new(|x: u8| (x as nat) < a + 1 && count_of(replies@, x) == 1),
            ));
            a = a + 1;
        }
        assert(self@ =~= after_round(old(self)@, replies@));
        no_collision
    }
}

impl Identified {
    /// Picks an address that the client does not know, from what an
    /// iterator over the client's addresses tells, and a random number:
    /// of the addresses still free, in order, the one at `random` modulo
    /// their number. `None` when no address is free. The ports are carried
    /// forward.
    pub fn with_random_address(iter: AddressesIter<'_>, random: u32, server_ports: u8) -> (r:
        Option<Self>)
        requires
            iter.wf(),
        ensures
            ({
                let free = free_slots(iter.remaining());
                if free.len() == 0 {
                    r is None
                } else {
                    r == Some(
                        Identified {
                            server_address: free[(random as int) % (free.len() as int)] as u8,
                            server_ports,
                        },
                    )
                }
            }),
            r matches Some(id) ==> (id.server_address as nat) < iter.remaining().len()
                && !iter.remaining()[id.server_address as int],
    {
        let ghost rem = iter.remaining();
        let mut iter = iter;
        let mut spare: Vec<u8> = Vec::new();
        let mut i: usize = 0;
        proof {
            assert(rem.take(0) =~= seq![]);
        }
        loop
            invariant
                iter.wf(),
                rem.len() <= MAX_ADDRESSES,
                i <= rem.len(),
                iter.remaining() == rem.skip(i as int),
                spare@.len() == free_slots(rem.take(i as int)).len(),
                forall|k: int|
                    0 <= k < spare@.len() ==> spare@[k] as nat == #[trigger] free_slots(
                        rem.take(i as int),
                    )[k],
            ensures
                i == rem.len(),
                spare@.len() == free_slots(rem.take(i as int)).len(),
                forall|k: int|
                    0 <= k < spare@.len() ==> spare@[k] as nat == #[trigger] free_slots(
                        rem.take(i as int),
                    )[k],
            decreases rem.len() - i,
        {
            proof {
                lemma_free_slots(rem.take(i as int));
            }
            match iter.next() {
                None => {
                    break ;
                },
                Some(taken) => {
                    assert(rem.take(i + 1).drop_last() =~= rem.take(i as int));
                    assert(rem.skip(i as int).drop_first() =~= rem.skip(i + 1));
                    if !taken {
                        spare.push(i as u8);
                    }
                    i = i + 1;
                },
            }
        }
        assert(rem.take(i as int) =~= rem);
        proof {
            lemma_free_slots(rem);
        }
        if spare.len() > 0 {
            let k = (random % (spare.len() as u32)) as usize;
            Some(Identified { server_address: spare[k], server_ports })
        } else {
            None
        }
    }
}

} // verus!
