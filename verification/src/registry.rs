//! The connection registry: at most one live connection per peer address.
//!
//! The registry owns the write half of each registered connection and the
//! terminator through which that half is handed back to the connection's
//! handler. What a write half or a terminator is, the registry does not
//! ask: it keeps them, lends the write half out for one send at a time, and
//! gives both up when the entry is removed.

use vstd::prelude::*;
use crate::message::Message;

verus! {

/// The network endpoint of a peer: an IP address and a port.
#[derive(Debug, Clone, Copy, PartialEq, Eq, Structural, Hash)]
pub struct PeerAddress {
    /// Whether `host` is an IPv6 address (else IPv4, in the low 32 bits).
    pub v6: bool,
    /// The IP address as a number, most significant octet first.
    pub host: u128,
    pub port: u16,
}

/// What a peer tells about itself.
#[derive(Debug)]
pub struct PeerInfo {
    pub id: String,
    pub addr: PeerAddress,
    pub name: String,
    pub uses_nat: bool,
}

/// One live, registered connection.
pub struct ActivePeer<W, T> {
    pub adr: PeerAddress,
    /// Hands the write half back to the handler that owns the read half.
    pub terminator: T,
    /// The write half of the connection.
    pub writer: W,
}

impl<W, T> ActivePeer<W, T> {
    /// Gives up the entry for a graceful close: the terminator, and the
    /// write half that is to be sent through it.
    pub fn close(self) -> (parts: (T, W))
        ensures
            parts.0 == self.terminator,
            parts.1 == self.writer,
    {
        (self.terminator, self.writer)
    }
}

/// Why the registry refused.
#[derive(Debug, Clone, Copy, PartialEq, Eq)]
pub enum RegistryError {
    /// No connection to this address is registered.
    NotAvailable(PeerAddress),
}

/// The position of the entry for `peer`, if there is one (of the last such
/// entry, where the addresses are not distinct).
pub open spec fn position_of<W, T>(entries: Seq<ActivePeer<W, T>>, peer: PeerAddress) -> Option<
    int,
>
    decreases entries.len(),
{
    if entries.len() == 0 {
        None
    } else if entries.last().adr == peer {
        Some(entries.len() - 1)
    } else {
        position_of(entries.drop_last(), peer)
    }
}

/// Whether no two entries share an address.
pub open spec fn distinct_addresses<W, T>(entries: Seq<ActivePeer<W, T>>) -> bool {
    forall|i: int, j: int|
        0 <= i < entries.len() && 0 <= j < entries.len() && i != j ==> entries[i].adr
            != entries[j].adr
}

/// The registry.
pub struct OpenConnections<W, T> {
    sinks: Vec<ActivePeer<W, T>>,
}

impl<W, T> View for OpenConnections<W, T> {
    type V = Map<PeerAddress, ActivePeer<W, T>>;

    /// The registered connections by address.
    closed spec fn view(&self) -> Map<PeerAddress, ActivePeer<W, T>> {
        registered(self.sinks@)
    }
}

/// The entries by address.
pub open spec fn registered<W, T>(entries: Seq<ActivePeer<W, T>>) -> Map<
    PeerAddress,
    ActivePeer<W, T>,
> {
    Map::new(
        |peer: PeerAddress| position_of(entries, peer) is Some,
        |peer: PeerAddress| entries[position_of(entries, peer)->Some_0],
    )
}

/// Where `position_of` points: at the one entry for that address.
proof fn lemma_position_of<W, T>(entries: Seq<ActivePeer<W, T>>, peer: PeerAddress)
    ensures
        match position_of(entries, peer) {
            Some(at) => 0 <= at < entries.len() && entries[at].adr == peer,
            None => forall|i: int| 0 <= i < entries.len() ==> entries[i].adr != peer,
        },
    decreases entries.len(),
{
    if entries.len() > 0 && entries.last().adr != peer {
        lemma_position_of(entries.drop_last(), peer);
        assert(forall|i: int|
            0 <= i < entries.len() - 1 ==> entries.drop_last()[i] == entries[i]);
    }
}

/// Among distinct addresses, the entry for an address is found where it is.
proof fn lemma_position_is<W, T>(entries: Seq<ActivePeer<W, T>>, at: int)
    requires
        distinct_addresses(entries),
        0 <= at < entries.len(),
    ensures
        position_of(entries, entries[at].adr) == Some(at),
{
    lemma_position_of(entries, entries[at].adr);
}

/// Taking one entry out keeps the addresses distinct, loses that entry's
/// address, and leaves every other address with the entry it had.
proof fn lemma_without<W, T>(entries: Seq<ActivePeer<W, T>>, at: int)
    requires
        distinct_addresses(entries),
        0 <= at < entries.len(),
    ensures
        distinct_addresses(entries.remove(at)),
        position_of(entries.remove(at), entries[at].adr) is None,
        forall|a: PeerAddress|
            a != entries[at].adr ==> (#[trigger] position_of(entries.remove(at), a) is Some)
                == (position_of(entries, a) is Some),
        forall|a: PeerAddress|
            a != entries[at].adr && position_of(entries, a) is Some ==> entries.remove(
                at,
            )[#[trigger] position_of(entries.remove(at), a)->Some_0]
                == entries[position_of(entries, a)->Some_0],
{
    let kept = entries.remove(at);
    assert forall|i: int| 0 <= i < kept.len() implies #[trigger] kept[i] == entries[if i < at {
        i
    } else {
        i + 1
    }] by {}
    assert(distinct_addresses(kept)) by {
        assert forall|i: int, j: int|
            0 <= i < kept.len() && 0 <= j < kept.len() && i != j implies kept[i].adr
            != kept[j].adr by {
            let i_old = if i < at { i } else { i + 1 };
            let j_old = if j < at { j } else { j + 1 };
            assert(kept[i] == entries[i_old]);
            assert(kept[j] == entries[j_old]);
        }
    }
    lemma_position_of(kept, entries[at].adr);
    if position_of(kept, entries[at].adr) is Some {
        let p = position_of(kept, entries[at].adr)->Some_0;
        let p_old = if p < at { p } else { p + 1 };
        assert(kept[p] == entries[p_old]);
    }
    assert forall|a: PeerAddress| a != entries[at].adr implies ((#[trigger] position_of(kept, a)
        is Some) == (position_of(entries, a) is Some)) && (position_of(entries, a) is Some
        ==> kept[position_of(kept, a)->Some_0] == entries[position_of(entries, a)->Some_0]) by {
        lemma_position_of(kept, a);
        lemma_position_of(entries, a);
        if position_of(kept, a) is Some {
            let p = position_of(kept, a)->Some_0;
            let p_old = if p < at { p } else { p + 1 };
            assert(kept[p] == entries[p_old]);
            lemma_position_is(entries, p_old);
        } else if position_of(entries, a) is Some {
            let q = position_of(entries, a)->Some_0;
            let q_kept = if q < at { q } else { q - 1 };
            assert(kept[q_kept] == entries[q]);
        }
    }
}

/// Adding an entry under an address that no entry has keeps the addresses
/// distinct, finds the new entry under its address, and leaves every other
/// address with the entry it had.
proof fn lemma_with<W, T>(entries: Seq<ActivePeer<W, T>>, entry: ActivePeer<W, T>)
    requires
        distinct_addresses(entries),
        position_of(entries, entry.adr) is None,
    ensures
        distinct_addresses(entries.push(entry)),
        position_of(entries.push(entry), entry.adr) == Some(entries.len() as int),
        forall|a: PeerAddress|
            a != entry.adr ==> #[trigger] position_of(entries.push(entry), a) == position_of(
                entries,
                a,
            ),
{
    lemma_position_of(entries, entry.adr);
    let grown = entries.push(entry);
    assert(grown.drop_last() =~= entries);
    assert(grown.last() == entry);
}

/// Replacing an entry by one with the same address keeps the addresses
/// distinct and every address where it was.
proof fn lemma_rewritten<W, T>(entries: Seq<ActivePeer<W, T>>, at: int, entry: ActivePeer<W, T>)
    requires
        distinct_addresses(entries),
        0 <= at < entries.len(),
        entry.adr == entries[at].adr,
    ensures
        distinct_addresses(entries.update(at, entry)),
        forall|a: PeerAddress| #[trigger]
            position_of(entries.update(at, entry), a) == position_of(entries, a),
        registered(entries.update(at, entry)) == registered(entries).insert(entry.adr, entry),
{
    let changed = entries.update(at, entry);
    assert(forall|i: int| 0 <= i < entries.len() ==> #[trigger] changed[i].adr == entries[i].adr);
    assert forall|a: PeerAddress| #[trigger]
        position_of(changed, a) == position_of(entries, a) by {
        lemma_position_of(changed, a);
        lemma_position_of(entries, a);
        if position_of(entries, a) is Some {
            lemma_position_is(changed, position_of(entries, a)->Some_0);
        } else if position_of(changed, a) is Some {
            assert(entries[position_of(changed, a)->Some_0].adr == a);
        }
    }
    lemma_position_is(entries, at);
    assert(position_of(changed, entry.adr) == Some(at));
    assert forall|a: PeerAddress|
        a != entry.adr && position_of(entries, a) is Some implies changed[position_of(
            changed,
            a,
        )->Some_0] == entries[position_of(entries, a)->Some_0] by {
        lemma_position_of(entries, a);
        assert(position_of(changed, a) == position_of(entries, a));
    }
    assert(registered(changed) =~= registered(entries).insert(entry.adr, entry));
}

/// Distinct addresses are as many as the entries.
proof fn lemma_count<W, T>(entries: Seq<ActivePeer<W, T>>)
    requires
        distinct_addresses(entries),
    ensures
        registered(entries).dom().finite(),
        registered(entries).len() == entries.len(),
    decreases entries.len(),
{
    if entries.len() == 0 {
        assert(registered(entries).dom() =~= Set::<PeerAddress>::empty());
    } else {
        let front = entries.drop_last();
        let entry = entries.last();
        assert(forall|i: int| 0 <= i < front.len() ==> front[i] == entries[i]);
        lemma_count(front);
        lemma_position_of(front, entry.adr);
        lemma_with(front, entry);
        assert(front.push(entry) =~= entries);
        assert(registered(entries).dom() =~= registered(front).dom().insert(entry.adr));
    }
}

impl<W, T> OpenConnections<W, T> {
    /// The registry's invariant: no address is registered twice. Every
    /// registry that this library hands out meets it.
    pub closed spec fn well_formed(&self) -> bool {
        distinct_addresses(self.sinks@)
    }

    /// The entries as the registry stores them.
    pub closed spec fn entries(&self) -> Seq<ActivePeer<W, T>> {
        self.sinks@
    }

    /// Whether a send to `to` finds a connection.
    pub open spec fn can_send(&self, to: PeerAddress) -> bool {
        self@.contains_key(to)
    }

    /// An empty registry.
    pub fn new() -> (registry: Self)
        ensures
            registry.well_formed(),
            registry@ == Map::<PeerAddress, ActivePeer<W, T>>::empty(),
    {
        let registry = OpenConnections { sinks: Vec::new() };
        assert(registry@ =~= Map::<PeerAddress, ActivePeer<W, T>>::empty());
        registry
    }

    fn find(&self, peer: PeerAddress) -> (found: Option<usize>)
        requires
            self.well_formed(),
        ensures
            match found {
                Some(at) => position_of(self.sinks@, peer) == Some(at as int),
                None => position_of(self.sinks@, peer) is None,
            },
    {
        proof {
            lemma_position_of(self.sinks@, peer);
        }
        let mut i: usize = 0;
        while i < self.sinks.len()
            invariant
                self.well_formed(),
                i <= self.sinks@.len(),
                forall|k: int| 0 <= k < i ==> self.sinks@[k].adr != peer,
            decreases self.sinks@.len() - i,
        {
            if self.sinks[i].adr == peer {
                proof {
                    lemma_position_is(self.sinks@, i as int);
                }
                return Some(i);
            }
            i += 1;
        }
        None
    }

    /// How many connections are registered.
    pub fn len(&self) -> (n: usize)
        requires
            self.well_formed(),
        ensures
            self@.dom().finite(),
            n == self@.len(),
            n == self.entries().len(),
    {
        proof {
            lemma_count(self.sinks@);
        }
        self.sinks.len()
    }

    /// Whether a connection to `peer` is registered.
    pub fn contains(&self, peer: PeerAddress) -> (present: bool)
        requires
            self.well_formed(),
        ensures
            present == self@.contains_key(peer),
    {
        self.find(peer).is_some()
    }

    /// Registers a connection under `peer`. An entry that was registered
    /// under the same address is replaced and dropped.
    pub fn add_new(&mut self, peer: PeerAddress, writer: W, terminator: T)
        requires
            old(self).well_formed(),
        ensures
            final(self).well_formed(),
            final(self)@ == old(self)@.insert(peer, ActivePeer { adr: peer, terminator, writer }),
    {
        let entry = ActivePeer { adr: peer, terminator, writer };
        let found = self.find(peer);
        proof {
            lemma_position_of(self.sinks@, peer);
        }
        match found {
            Some(at) => {
                proof {
                    lemma_without(self.sinks@, at as int);
                }
                self.sinks.remove(at);
            },
            None => {},
        }
        let ghost kept = self.sinks@;
        proof {
            lemma_with(kept, entry);
        }
        self.sinks.push(entry);
        proof {
            let before = old(self).sinks@;
            let after = self.sinks@;
            assert(after == kept.push(entry));
            assert forall|a: PeerAddress| a != peer implies (position_of(after, a) is Some) == (
            position_of(before, a) is Some) && (position_of(before, a) is Some ==> after[position_of(
                after,
                a,
            )->Some_0] == before[position_of(before, a)->Some_0]) by {
                assert(position_of(after, a) == position_of(kept, a));
                lemma_position_of(kept, a);
                if found is Some {
                    assert((position_of(before.remove(found->Some_0 as int), a) is Some) == (
                    position_of(before, a) is Some));
                }
            }
            assert(final(self)@.dom() =~= old(self)@.insert(peer, entry).dom());
            assert(final(self)@ =~= old(self)@.insert(peer, entry));
        }
    }

    /// Takes the connection to `peer` out of the registry and returns it,
    /// `None` where none is registered.
    pub fn remove(&mut self, peer: &PeerAddress) -> (removed: Option<ActivePeer<W, T>>)
        requires
            old(self).well_formed(),
        ensures
            final(self).well_formed(),
            final(self)@ == old(self)@.remove(*peer),
            removed == (if old(self)@.contains_key(*peer) {
                Some(old(self)@[*peer])
            } else {
                None
            }),
    {
        let found = self.find(*peer);
        proof {
            lemma_position_of(self.sinks@, *peer);
        }
        match found {
            Some(at) => {
                proof {
                    lemma_without(self.sinks@, at as int);
                }
                let entry = self.sinks.remove(at);
                assert(final(self)@ =~= old(self)@.remove(*peer));
                Some(entry)
            },
            None => {
                assert(final(self)@ =~= old(self)@.remove(*peer));
                None
            },
        }
    }

    /// Looks up the connection to `to` for one send.
    ///
    /// Where a connection is registered, lends its write half out together
    /// with the message to write through it; the entry stays registered, with
    /// the write half as the borrower leaves it. Where none is registered,
    /// the send fails with `NotAvailable` and the registry is unchanged.
    pub fn send(&mut self, to: PeerAddress, msg: Message) -> (r: Result<
        (&mut W, Message),
        RegistryError,
    >)
        requires
            old(self).well_formed(),
        ensures
            final(self).well_formed(),
            match r {
                Ok((writer, m)) => {
                    &&& old(self).can_send(to)
                    &&& m == msg
                    &&& *writer == old(self)@[to].writer
                    &&& final(self)@ == old(self)@.insert(
                        to,
                        ActivePeer {
                            adr: to,
                            terminator: old(self)@[to].terminator,
                            writer: *final(writer),
                        },
                    )
                },
                Err(e) => {
                    &&& !old(self).can_send(to)
                    &&& e == RegistryError::NotAvailable(to)
                    &&& final(self)@ == old(self)@
                },
            },
    {
        let found = self.find(to);
        proof {
            lemma_position_of(self.sinks@, to);
        }
        match found {
            Some(at) => {
                let writer = &mut self.sinks[at].writer;
                proof {
                    let before = old(self).sinks@;
                    let entry = ActivePeer {
                        adr: to,
                        terminator: before[at as int].terminator,
                        writer: *final(writer),
                    };
                    lemma_rewritten(before, at as int, entry);
                }
                Ok((writer, msg))
            },
            None => Err(RegistryError::NotAvailable(to)),
        }
    }
}

/// One entry per address. A registry never stores two entries under one
/// address, and each entry it stores is the one that its address leads to.
pub proof fn lemma_one_entry_per_address<W, T>(registry: OpenConnections<W, T>)
    requires
        registry.well_formed(),
    ensures
        registry@ == registered(registry.entries()),
        distinct_addresses(registry.entries()),
        forall|i: int|
            0 <= i < registry.entries().len() ==> registry@.contains_key(
                (#[trigger] registry.entries()[i]).adr,
            ) && registry@[registry.entries()[i].adr] == registry.entries()[i],
{
    assert forall|i: int| 0 <= i < registry.entries().len() implies registry@.contains_key(
        (#[trigger] registry.entries()[i]).adr,
    ) && registry@[registry.entries()[i].adr] == registry.entries()[i] by {
        lemma_position_is(registry.entries(), i);
    }
}

/// No send after a remove. Once the entry of an address has been removed,
/// a send to that address finds no connection, whatever was registered
/// before; sends to other addresses find what they found.
pub proof fn lemma_no_send_after_remove<W, T>(
    before: OpenConnections<W, T>,
    after: OpenConnections<W, T>,
    peer: PeerAddress,
)
    requires
        after@ == before@.remove(peer),
    ensures
        !after.can_send(peer),
        forall|other: PeerAddress| other != peer ==> after.can_send(other) == before.can_send(other),
{
}

} // verus!
