//! The decisions of the server that relays operations between the sites
//! of a shared document: which site id a new client gets, what a command
//! is answered with, and who receives an operation.  Sending and receiving
//! the messages is left to the caller.
use vstd::prelude::*;
use crate::ids::SiteId;
use crate::document::{DocumentOp, Storage};
use crate::weave::can_add;

verus! {

/// What a client sends.
#[derive(Debug, Clone)]
pub enum ClientCommand {
    /// The client joins and asks for its site id.
    Join,
    /// The client asks for the whole document.
    GetAll,
    /// The client made an operation.
    Op(DocumentOp),
}

/// What the server does on a command.
#[derive(Debug)]
pub enum ServerAction {
    /// Welcome the site, telling it its id.
    Welcome(SiteId),
    /// Send the whole document to the site.
    Document(SiteId),
    /// Send the operation to each of these sites (it has been applied).
    Forward(Vec<SiteId>),
}

/// The connected sites other than `from`, in the order they are held.
pub open spec fn others(clients: Seq<SiteId>, from: SiteId) -> Seq<SiteId>
    decreases clients.len(),
{
    if clients.len() == 0 {
        Seq::empty()
    } else {
        let rest = others(clients.drop_last(), from);
        if clients.last() == from {
            rest
        } else {
            rest.push(clients.last())
        }
    }
}

/// An operation reaches exactly the connected sites other than the one it
/// came from.
pub proof fn lemma_others_are_the_rest(clients: Seq<SiteId>, from: SiteId, c: SiteId)
    ensures
        others(clients, from).contains(c) <==> (clients.contains(c) && c != from),
    decreases clients.len(),
{
    if clients.len() > 0 {
        let p = clients.drop_last();
        lemma_others_are_the_rest(p, from, c);
        if p.contains(c) {
            let j = choose|j: int| 0 <= j < p.len() && p[j] == c;
            assert(clients[j] == c);
        }
        if clients.contains(c) && c != from {
            let j = choose|j: int| 0 <= j < clients.len() && clients[j] == c;
            if j < clients.len() - 1 {
                assert(p[j] == c);
            }
        }
        if clients.last() != from {
            let r = others(p, from);
            if r.push(clients.last()).contains(c) && c != clients.last() {
                let j = choose|j: int| 0 <= j < r.push(clients.last()).len() && r.push(clients.last())[j] == c;
                assert(r[j] == c);
            }
            if r.contains(c) {
                let j = choose|j: int| 0 <= j < r.len() && r[j] == c;
                assert(r.push(clients.last())[j] == c);
            }
            assert(r.push(clients.last())[r.len() as int] == clients.last());
        }
    }
}

/// The server's state: the storage every operation is applied to, the
/// sites of the connected clients (each once) and the last site id handed
/// out.
pub struct Server {
    storage: Storage,
    clients: Vec<SiteId>,
    last_id: SiteId,
}

impl Server {
    pub closed spec fn storage_of(&self) -> Storage {
        self.storage
    }

    /// The sites of the connected clients, in the order they connected.
    pub closed spec fn client_seq(&self) -> Seq<SiteId> {
        self.clients@
    }

    pub closed spec fn last_id_of(&self) -> SiteId {
        self.last_id
    }

    /// The storage is well-formed, no site is connected twice, and every
    /// connected site has an id handed out already.
    pub closed spec fn wf(&self) -> bool {
        &&& self.storage.wf()
        &&& forall|i: int, j: int| 0 <= i < j < self.clients@.len() ==> self.clients@[i] != self.clients@[j]
        &&& forall|i: int| 0 <= i < self.clients@.len() ==> (#[trigger] self.clients@[i]).0 <= self.last_id.0
    }

    /// A server for the document, with no client; the first client gets
    /// the site id 2.
    pub fn new(document: Storage) -> (r: Server)
        requires
            document.wf(),
        ensures
            r.wf(),
            r.storage_of() == document,
            r.client_seq() == Seq::<SiteId>::empty(),
            r.last_id_of() == SiteId(1),
    {
        Server { storage: document, clients: Vec::new(), last_id: SiteId(1) }
    }

    /// The document as the server holds it.
    pub fn storage(&self) -> (r: &Storage)
        ensures
            *r == self.storage_of(),
    {
        &self.storage
    }

    /// Hands out the next site id.
    pub fn next_id(&mut self) -> (r: SiteId)
        requires
            old(self).wf(),
            old(self).last_id_of().0 < u32::MAX,
        ensures
            final(self).wf(),
            r == SiteId((old(self).last_id_of().0 + 1) as u32),
            final(self).last_id_of() == r,
            final(self).storage_of() == old(self).storage_of(),
            final(self).client_seq() == old(self).client_seq(),
    {
        let n = SiteId(self.last_id.0 + 1);
        self.last_id = n;
        n
    }

    /// A client connects: it gets the next site id and is held among the
    /// connected sites.
    pub fn connect(&mut self) -> (r: SiteId)
        requires
            old(self).wf(),
            old(self).last_id_of().0 < u32::MAX,
        ensures
            final(self).wf(),
            r == SiteId((old(self).last_id_of().0 + 1) as u32),
            final(self).last_id_of() == r,
            final(self).storage_of() == old(self).storage_of(),
            final(self).client_seq() == old(self).client_seq().push(r),
    {
        let id = self.next_id();
        self.clients.push(id);
        id
    }

    /// A client is gone (it left, or sending to it failed): it is no longer
    /// held.
    pub fn disconnect(&mut self, id: SiteId)
        requires
            old(self).wf(),
        ensures
            final(self).wf(),
            final(self).client_seq() == others(old(self).client_seq(), id),
            final(self).storage_of() == old(self).storage_of(),
            final(self).last_id_of() == old(self).last_id_of(),
    {
        let kept = self.others_than(id);
        self.clients = kept;
    }

    /// The connected sites other than `from`.
    fn others_than(&self, from: SiteId) -> (r: Vec<SiteId>)
        requires
            self.wf(),
        ensures
            r@ == others(self.client_seq(), from),
            forall|i: int, j: int| 0 <= i < j < r@.len() ==> r@[i] != r@[j],
            forall|i: int| 0 <= i < r@.len() ==> (#[trigger] r@[i]).0 <= self.last_id.0,
    {
        let mut r: Vec<SiteId> = Vec::new();
        let mut i: usize = 0;
        proof {
            assert(self.clients@.take(0) =~= Seq::<SiteId>::empty());
        }
        while i < self.clients.len()
            invariant
                0 <= i <= self.clients@.len(),
                self.wf(),
                r@ == others(self.clients@.take(i as int), from),
                forall|k: int| 0 <= k < r@.len() ==> self.clients@.take(i as int).contains(#[trigger] r@[k]),
                forall|k: int, l: int| 0 <= k < l < r@.len() ==> r@[k] != r@[l],
                forall|k: int| 0 <= k < r@.len() ==> (#[trigger] r@[k]).0 <= self.last_id.0,
            decreases self.clients@.len() - i,
        {
            let c = self.clients[i];
            let ghost pre = self.clients@.take(i as int);
            let ghost post = self.clients@.take(i + 1);
            proof {
                assert(post.drop_last() =~= pre);
                assert(post.last() == c);
                assert forall|k: int| 0 <= k < r@.len() implies post.contains(#[trigger] r@[k]) by {
                    let j = choose|j: int| 0 <= j < pre.len() && pre[j] == r@[k];
                    assert(post[j] == r@[k]);
                }
            }
            if c != from {
                proof {
                    assert forall|k: int| 0 <= k < r@.len() implies r@[k] != c by {
                        let j = choose|j: int| 0 <= j < pre.len() && pre[j] == r@[k];
                        assert(self.clients@[j] != self.clients@[i as int]);
                    }
                }
                r.push(c);
                proof {
                    assert forall|k: int| 0 <= k < r@.len() implies post.contains(#[trigger] r@[k]) by {
                        if k == r@.len() - 1 {
                            assert(post[i as int] == c);
                        }
                    }
                }
            }
            i = i + 1;
        }
        proof {
            assert(self.clients@.take(self.clients@.len() as int) =~= self.clients@);
        }
        r
    }

    /// Whether an operation can be applied to the document: an atom only to
    /// a sequence there is, after an atom that is there (or at the start).
    pub fn can_apply(&self, op: &DocumentOp) -> (r: bool)
        requires
            self.wf(),
        ensures
            r == (*op matches DocumentOp::SeqOp(id, atom) ==> self.storage_of().weave_map().contains_key(id)
                && can_add(self.storage_of().weave_map()[id].atom_seq(), atom)),
    {
        match op {
            DocumentOp::SeqOp(id, atom) => self.storage.can_add_atom(*id, *atom),
            _ => true,
        }
    }

    /// What the server does on a command from the site `from`: a joining
    /// site is welcomed with its id; a site asking for the document gets it;
    /// an operation is applied to the document and forwarded to every other
    /// connected site.
    pub fn user_message(&mut self, from: SiteId, command: ClientCommand) -> (r: ServerAction)
        requires
            old(self).wf(),
            command matches ClientCommand::Op(op) ==> (op matches DocumentOp::SeqOp(id, atom)
                ==> old(self).storage_of().weave_map().contains_key(id)
                && can_add(old(self).storage_of().weave_map()[id].atom_seq(), atom)),
        ensures
            final(self).wf(),
            final(self).client_seq() == old(self).client_seq(),
            final(self).last_id_of() == old(self).last_id_of(),
            match command {
                ClientCommand::Join => r == ServerAction::Welcome(from)
                    && final(self).storage_of() == old(self).storage_of(),
                ClientCommand::GetAll => r == ServerAction::Document(from)
                    && final(self).storage_of() == old(self).storage_of(),
                ClientCommand::Op(op) => (r matches ServerAction::Forward(to) && to@ == others(
                    old(self).client_seq(),
                    from,
                )) && final(self).storage_of().applied(&old(self).storage_of(), op),
            },
    {
        match command {
            ClientCommand::Join => ServerAction::Welcome(from),
            ClientCommand::GetAll => ServerAction::Document(from),
            ClientCommand::Op(op) => {
                let to = self.others_than(from);
                self.storage.apply(op);
                ServerAction::Forward(to)
            },
        }
    }
}

} // verus!
