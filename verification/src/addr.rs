//! Peer addresses, the set of addresses a peer is known to have seen, and the
//! interface to whoever keeps the address book.

use std::collections::VecDeque;
use vstd::prelude::*;
use vstd::std_specs::convert::FromSpecImpl;

verus! {

/// How many addresses are remembered for each substream unless told otherwise.
pub const DEFAULT_MAX_KNOWN: usize = 5000;

/// The first IPv6 address of the block that stands for IPv4 addresses
/// (`::ffff:0.0.0.0`).
pub const IPV4_MAPPED: u128 = 0xffff_0000_0000;

/// The address of an internet socket, with its parts as plain integers.
#[allow(inconsistent_fields)]
#[derive(Clone, Copy, PartialEq, Eq, Structural, Hash, Debug)]
pub enum SocketAddr {
    V4 { ip: u32, port: u16 },
    V6 { ip: u128, port: u16, flowinfo: u32, scope_id: u32 },
}

/// The form in which an address travels between peers: an IPv6 address (an IPv4
/// address is mapped into IPv6) and a port.
#[derive(Clone, Copy, PartialEq, Eq, Structural, Hash, Debug)]
pub struct AddrRaw {
    pub ip: u128,
    pub port: u16,
}

/// The travelling form of `addr`.
pub open spec fn raw_of(addr: SocketAddr) -> AddrRaw {
    match addr {
        SocketAddr::V4 { ip, port } => AddrRaw { ip: (IPV4_MAPPED + ip) as u128, port },
        SocketAddr::V6 { ip, port, flowinfo, scope_id } => AddrRaw { ip, port },
    }
}

impl From<SocketAddr> for AddrRaw {
    fn from(addr: SocketAddr) -> (raw: AddrRaw) {
        match addr {
            SocketAddr::V4 { ip, port } => AddrRaw { ip: IPV4_MAPPED + ip as u128, port },
            SocketAddr::V6 { ip, port, .. } => AddrRaw { ip, port },
        }
    }
}

impl FromSpecImpl<SocketAddr> for AddrRaw {
    open spec fn obeys_from_spec() -> bool {
        true
    }

    open spec fn from_spec(addr: SocketAddr) -> AddrRaw {
        raw_of(addr)
    }
}

/// Two IPv4 sockets have the same travelling form only if they are the same
/// socket.
pub proof fn lemma_ipv4_raw_is_unique(a: SocketAddr, b: SocketAddr)
    requires
        a is V4,
        b is V4,
        raw_of(a) == raw_of(b),
    ensures
        a == b,
{
}

/// Where peer addresses are kept and where bad behaviour of peers is reported.
pub trait AddressManager {
    /// Takes note that the peer at `addr` broke the rule numbered `kind`.
    fn misbehave(&mut self, addr: SocketAddr, kind: u32);

    /// Picks addresses at random, `n` of them where there are that many.
    fn get_random(&mut self, n: usize) -> Vec<SocketAddr>;
}

/// A call made to an address manager, together with what it answered.
pub enum ManagerCall {
    Misbehave { addr: SocketAddr, kind: u32 },
    GetRandom { n: usize, answer: Seq<SocketAddr> },
}

/// An address manager, with a record of every call that was made to it.
pub struct AddressBook<M> {
    manager: M,
    history: Ghost<Seq<ManagerCall>>,
}

impl<M> AddressBook<M> {
    /// The manager itself.
    pub closed spec fn manager(&self) -> M {
        self.manager
    }

    /// The calls made to the manager so far, oldest first.
    pub closed spec fn calls(&self) -> Seq<ManagerCall> {
        self.history@
    }
}

impl<M: AddressManager> AddressBook<M> {
    /// Puts `manager` on record; it has not been called yet.
    pub fn new(manager: M) -> (book: AddressBook<M>)
        ensures
            book.manager() == manager,
            book.calls() == Seq::<ManagerCall>::empty(),
    {
        AddressBook { manager, history: Ghost(Seq::empty()) }
    }

    /// Reports the peer at `addr` to the manager: one call of
    /// [`AddressManager::misbehave`], with these arguments.
    pub fn misbehave(&mut self, addr: SocketAddr, kind: u32)
        ensures
            final(self).calls() == old(self).calls().push(ManagerCall::Misbehave { addr, kind }),
            exists|mgr: &mut M|
                {
                    &&& #[trigger] call_ensures(M::misbehave, (mgr, addr, kind), ())
                    &&& *mgr == old(self).manager()
                    &&& *final(mgr) == final(self).manager()
                },
    {
        self.manager.misbehave(addr, kind);
        self.history = Ghost(self.history@.push(ManagerCall::Misbehave { addr, kind }));
    }

    /// Asks the manager for `n` addresses: one call of
    /// [`AddressManager::get_random`], whose answer is handed on.
    pub fn get_random(&mut self, n: usize) -> (items: Vec<SocketAddr>)
        ensures
            final(self).calls() == old(self).calls().push(
                ManagerCall::GetRandom { n, answer: items@ },
            ),
            exists|mgr: &mut M|
                {
                    &&& #[trigger] call_ensures(M::get_random, (mgr, n), items)
                    &&& *mgr == old(self).manager()
                    &&& *final(mgr) == final(self).manager()
                },
    {
        let items = self.manager.get_random(n);
        self.history = Ghost(self.history@.push(ManagerCall::GetRandom { n, answer: items@ }));
        items
    }
}

/// What an [`AddrKnown`] stands for: at most `max_known` addresses, the one
/// inserted longest ago first.
#[verifier::ext_equal]
pub struct KnownAddrs {
    pub max_known: nat,
    pub addrs: Seq<AddrRaw>,
}

impl KnownAddrs {
    /// Nothing is remembered twice, and no more than the limit allows.
    pub open spec fn wf(self) -> bool {
        self.addrs.no_duplicates() && self.addrs.len() <= self.max_known
    }

    /// Nothing is remembered yet.
    pub open spec fn empty(max_known: nat) -> KnownAddrs {
        KnownAddrs { max_known, addrs: Seq::empty() }
    }

    /// The addresses other than `addr`, in their order.
    pub open spec fn others(self, addr: AddrRaw) -> Seq<AddrRaw> {
        if self.addrs.contains(addr) {
            self.addrs.remove(self.addrs.index_of(addr))
        } else {
            self.addrs
        }
    }

    /// `addr` becomes the newest; where that is one too many, the oldest goes.
    pub open spec fn insert(self, addr: AddrRaw) -> KnownAddrs {
        let all = self.others(addr).push(addr);
        KnownAddrs {
            addrs: if all.len() > self.max_known {
                all.drop_first()
            } else {
                all
            },
            ..self
        }
    }

    /// All of `more` are inserted, in their order.
    pub open spec fn insert_all(self, more: Seq<AddrRaw>) -> KnownAddrs
        decreases more.len(),
    {
        if more.len() == 0 {
            self
        } else {
            self.insert_all(more.drop_last()).insert(more.last())
        }
    }
}

/// The addresses that a peer is known to have seen: at most a fixed number, of
/// which the one inserted longest ago is forgotten first.
pub struct AddrKnown {
    max_known: usize,
    addrs: VecDeque<AddrRaw>,
}

impl View for AddrKnown {
    type V = KnownAddrs;

    closed spec fn view(&self) -> KnownAddrs {
        KnownAddrs { max_known: self.max_known as nat, addrs: self.addrs@ }
    }
}

impl AddrKnown {
    /// Remembers nothing yet, and never more than `max_known` addresses.
    pub fn new(max_known: usize) -> (known: AddrKnown)
        ensures
            known@ == KnownAddrs::empty(max_known as nat),
            known@.wf(),
    {
        AddrKnown { max_known, addrs: VecDeque::new() }
    }

    /// Where `addr` is remembered, if it is.
    fn position(&self, addr: AddrRaw) -> (found: Option<usize>)
        ensures
            match found {
                Some(i) => i < self@.addrs.len() && self@.addrs[i as int] == addr,
                None => !self@.addrs.contains(addr),
            },
    {
        let mut i: usize = 0;
        while i < self.addrs.len()
            invariant
                i <= self@.addrs.len(),
                forall|j: int| 0 <= j < i ==> self@.addrs[j] != addr,
            decreases self@.addrs.len() - i,
        {
            if self.addrs[i] == addr {
                return Some(i);
            }
            i += 1;
        }
        None
    }

    /// Whether `addr` is remembered.
    pub fn contains(&self, addr: &AddrRaw) -> (known: bool)
        ensures
            known == self@.addrs.contains(*addr),
    {
        self.position(*addr).is_some()
    }

    /// Remembers `addr` as the newest, and forgets the oldest where that makes
    /// one too many.
    pub fn insert(&mut self, addr: AddrRaw)
        requires
            old(self)@.wf(),
        ensures
            final(self)@ == old(self)@.insert(addr),
            final(self)@.wf(),
    {
        let ghost before = self@;
        if let Some(i) = self.position(addr) {
            assert(i == before.addrs.index_of(addr));
            self.addrs.remove(i);
        }
        assert(self.addrs@ == before.others(addr));
        assert(!self.addrs@.contains(addr));
        self.addrs.push_back(addr);
        if self.addrs.len() > self.max_known {
            self.addrs.pop_front();
        }
    }
}

} // verus!
