//! The endpoint transport, modeled as explicit state.
//!
//! The real system hands these operations to the operating system: a bound
//! listening endpoint lives at a filesystem path, a client connects, writes
//! its whole request, half-closes, and the peer's reply arrives once the
//! peer closes. This module keeps that whole picture as a value, a
//! `SocketSpace`: binding seizes a path (deleting any prior occupant),
//! connecting fails exactly when no listener holds the path, a completed
//! write lands the request in the listener's inbox, and the reply a client
//! reads is fixed by the listener owner's behavior and the request alone.
//! Every rule the transport promises is stated here as a contract; the thin
//! process wrapper that speaks to the operating system mirrors these calls
//! one for one.

use vstd::prelude::*;
use vstd::slice::slice_to_vec;

use crate::bytes_eq;

verus! {

/// How the process that owns a listener answers a completed request:
/// it echoes the request back, or it sends a fixed reply.
pub enum PeerBehavior {
    Echoes,
    Replies(Vec<u8>),
}

/// The mathematical value of a `PeerBehavior`.
pub enum PeerModel {
    Echoes,
    Replies(Seq<u8>),
}

impl View for PeerBehavior {
    type V = PeerModel;

    open spec fn view(&self) -> PeerModel {
        match self {
            PeerBehavior::Echoes => PeerModel::Echoes,
            PeerBehavior::Replies(r) => PeerModel::Replies(r@),
        }
    }
}

/// One live listening endpoint: the path it holds, its owner's behavior,
/// and the requests that have arrived complete and unread.
struct Listener {
    path: Vec<u8>,
    peer: PeerBehavior,
    inbox: Vec<Vec<u8>>,
}

/// The mathematical value of one live listening endpoint.
pub struct ListenerModel {
    pub path: Seq<u8>,
    pub peer: PeerModel,
    pub inbox: Seq<Seq<u8>>,
}

impl View for Listener {
    type V = ListenerModel;

    closed spec fn view(&self) -> ListenerModel {
        ListenerModel {
            path: self.path@,
            peer: self.peer@,
            inbox: Seq::new(self.inbox@.len(), |i: int| self.inbox@[i]@),
        }
    }
}

/// The set of live local endpoints, keyed by filesystem path. The single
/// shared resource of the transport: at most one listener holds a path.
pub struct SocketSpace {
    listeners: Vec<Listener>,
}

impl View for SocketSpace {
    type V = Seq<ListenerModel>;

    closed spec fn view(&self) -> Seq<ListenerModel> {
        Seq::new(self.listeners@.len(), |i: int| self.listeners@[i]@)
    }
}

/// A handle on a bound listening endpoint, as `bind` returns it.
pub struct ListenerHandle {
    pub path: Vec<u8>,
}

/// The client end of one connection. After `write`, the request has been
/// fully delivered (`write_closed`) and `reply` holds what the peer sends
/// back; `read_from_stream` hands it out.
pub struct Stream {
    pub path: Vec<u8>,
    pub sent: Vec<u8>,
    pub write_closed: bool,
    pub reply: Vec<u8>,
}

/// A transport failure: connecting to a path where no listener is bound.
#[derive(Debug)]
pub enum TransportError {
    ConnectionRefused { path: Vec<u8> },
}

/// Well-formedness of the endpoint set: no two listeners hold one path.
pub open spec fn space_wf(s: Seq<ListenerModel>) -> bool {
    forall|i: int, j: int| 0 <= i < j < s.len() ==> s[i].path != s[j].path
}

/// True when some listener holds `path`.
pub open spec fn has_listener(s: Seq<ListenerModel>, path: Seq<u8>) -> bool {
    exists|i: int| 0 <= i < s.len() && s[i].path == path
}

/// The position of the listener holding `path` (meaningful when one does).
pub open spec fn listener_index(s: Seq<ListenerModel>, path: Seq<u8>) -> int {
    choose|i: int| 0 <= i < s.len() && s[i].path == path
}

/// The listener holding `path` (meaningful when one does).
pub open spec fn listener_at(s: Seq<ListenerModel>, path: Seq<u8>) -> ListenerModel {
    s[listener_index(s, path)]
}

/// The reply that a peer with the given behavior sends back for a
/// completed request.
pub open spec fn peer_reply(peer: PeerModel, request: Seq<u8>) -> Seq<u8> {
    match peer {
        PeerModel::Echoes => request,
        PeerModel::Replies(r) => r,
    }
}

/// The endpoint set with the listener at `path` removed, if one was there.
pub open spec fn spec_unbind(s: Seq<ListenerModel>, path: Seq<u8>) -> Seq<ListenerModel> {
    if has_listener(s, path) {
        s.remove(listener_index(s, path))
    } else {
        s
    }
}

/// The endpoint set after binding `path`: any prior occupant is deleted,
/// and a fresh listener with an empty inbox takes the path.
pub open spec fn spec_bind(s: Seq<ListenerModel>, path: Seq<u8>, peer: PeerModel) -> Seq<
    ListenerModel,
> {
    spec_unbind(s, path).push(ListenerModel { path, peer, inbox: Seq::empty() })
}

/// The endpoint set after a completed request `request` reaches the
/// listener at `path` (meaningful when one is there).
pub open spec fn spec_deliver(s: Seq<ListenerModel>, path: Seq<u8>, request: Seq<u8>) -> Seq<
    ListenerModel,
> {
    let i = listener_index(s, path);
    let l = listener_at(s, path);
    s.update(i, ListenerModel { path: l.path, peer: l.peer, inbox: l.inbox.push(request) })
}

/// The endpoint set after the listener at `path` takes the oldest request
/// out of its inbox (meaningful when one is there and the inbox is not
/// empty).
pub open spec fn spec_take_first(s: Seq<ListenerModel>, path: Seq<u8>) -> Seq<ListenerModel> {
    let i = listener_index(s, path);
    let l = listener_at(s, path);
    s.update(i, ListenerModel { path: l.path, peer: l.peer, inbox: l.inbox.drop_first() })
}

/// How many listeners hold `path`.
pub open spec fn live_listeners(s: Seq<ListenerModel>, path: Seq<u8>) -> nat
    decreases s.len(),
{
    if s.len() == 0 {
        0
    } else {
        live_listeners(s.drop_last(), path) + (if s.last().path == path {
            1nat
        } else {
            0nat
        })
    }
}

/// In a well-formed endpoint set, the listener holding a path sits at one
/// position only.
proof fn lemma_index_unique(s: Seq<ListenerModel>, path: Seq<u8>, i: int)
    requires
        space_wf(s),
        0 <= i < s.len(),
        s[i].path == path,
    ensures
        has_listener(s, path),
        listener_index(s, path) == i,
{
    assert(has_listener(s, path));
    let j = listener_index(s, path);
    if j < i {
        assert(s[j].path != s[i].path);
        assert(false);
    } else if i < j {
        assert(s[i].path != s[j].path);
        assert(false);
    }
}

proof fn lemma_live_zero(s: Seq<ListenerModel>, path: Seq<u8>)
    ensures
        live_listeners(s, path) == 0 <==> !has_listener(s, path),
    decreases s.len(),
{
    if s.len() > 0 {
        lemma_live_zero(s.drop_last(), path);
        if has_listener(s, path) {
            let w = choose|i: int| 0 <= i < s.len() && s[i].path == path;
            if w < s.len() - 1 {
                assert(s.drop_last()[w].path == path);
                assert(has_listener(s.drop_last(), path));
            }
        } else {
            assert(forall|i: int|
                0 <= i < s.len() - 1 ==> s.drop_last()[i].path != path && s[i] == s.drop_last()[i]);
            assert(!has_listener(s.drop_last(), path));
        }
    }
}

/// Law: after `bind`, exactly one live listener holds the path — it is
/// fresh (empty inbox, the given behavior), and well-formedness is kept.
pub proof fn lemma_bind_exclusive(s: Seq<ListenerModel>, path: Seq<u8>, peer: PeerModel)
    requires
        space_wf(s),
    ensures
        space_wf(spec_bind(s, path, peer)),
        live_listeners(spec_bind(s, path, peer), path) == 1,
        has_listener(spec_bind(s, path, peer), path),
        listener_at(spec_bind(s, path, peer), path) == (ListenerModel {
            path,
            peer,
            inbox: Seq::empty(),
        }),
{
    let t = spec_unbind(s, path);
    let fresh = ListenerModel { path, peer, inbox: Seq::empty() };
    let r = t.push(fresh);
    if has_listener(s, path) {
        let i = listener_index(s, path);
        assert(s[i].path == path);
        assert forall|k: int| 0 <= k < t.len() implies t[k].path != path by {
            if k < i {
                assert(t[k] == s[k]);
                lemma_index_unique(s, path, i);
                if s[k].path == path {
                    lemma_index_unique(s, path, k);
                }
            } else {
                assert(t[k] == s[k + 1]);
                if s[k + 1].path == path {
                    lemma_index_unique(s, path, k + 1);
                }
            }
        }
        assert(space_wf(t));
    } else {
        assert(forall|k: int| 0 <= k < t.len() ==> t[k].path != path);
        assert(space_wf(t));
    }
    assert(space_wf(r));
    assert(r[t.len() as int] == fresh);
    lemma_index_unique(r, path, t.len() as int);
    assert(listener_at(r, path) == fresh);
    assert(r.drop_last() =~= t);
    lemma_live_zero(t, path);
    assert(live_listeners(r, path) == live_listeners(t, path) + 1);
}

/// Law: binding the same path twice in a row succeeds both times and
/// leaves exactly one live listener at that path — the second one.
pub proof fn lemma_bind_twice_single_listener(
    s: Seq<ListenerModel>,
    path: Seq<u8>,
    p1: PeerModel,
    p2: PeerModel,
)
    requires
        space_wf(s),
    ensures
        space_wf(spec_bind(spec_bind(s, path, p1), path, p2)),
        live_listeners(spec_bind(spec_bind(s, path, p1), path, p2), path) == 1,
        listener_at(spec_bind(spec_bind(s, path, p1), path, p2), path) == (ListenerModel {
            path,
            peer: p2,
            inbox: Seq::empty(),
        }),
{
    lemma_bind_exclusive(s, path, p1);
    lemma_bind_exclusive(spec_bind(s, path, p1), path, p2);
}

impl SocketSpace {
    /// An endpoint set with no listener bound.
    pub fn new() -> (r: SocketSpace)
        ensures
            r@ == Seq::<ListenerModel>::empty(),
            space_wf(r@),
    {
        let space = SocketSpace { listeners: Vec::new() };
        proof {
            assert(space@ =~= Seq::<ListenerModel>::empty());
        }
        space
    }

    /// Finds the position of the listener holding `path`, if any.
    fn find(&self, path: &[u8]) -> (r: Option<usize>)
        ensures
            match r {
                Some(i) => i < self@.len() && self@[i as int].path == path@,
                None => !has_listener(self@, path@),
            },
    {
        let mut i: usize = 0;
        while i < self.listeners.len()
            invariant
                i <= self.listeners@.len(),
                self@.len() == self.listeners@.len(),
                forall|k: int| 0 <= k < i ==> self@[k].path != path@,
            decreases self.listeners@.len() - i,
        {
            let l: &Listener = &self.listeners[i];
            if bytes_eq(l.path.as_slice(), path) {
                return Some(i);
            }
            i += 1;
        }
        None
    }
}

/// Binds a listening endpoint at `path` for a peer with the given
/// behavior, deleting whatever held the path before. Always succeeds: the
/// path is seized unconditionally, and afterwards exactly one live
/// listener (fresh, empty inbox) holds it.
pub fn bind(space: &mut SocketSpace, path: &[u8], peer: PeerBehavior) -> (r: Result<
    ListenerHandle,
    TransportError,
>)
    requires
        space_wf(old(space)@),
    ensures
        final(space)@ == spec_bind(old(space)@, path@, peer@),
        space_wf(final(space)@),
        live_listeners(final(space)@, path@) == 1,
        r matches Ok(h) && h.path@ == path@,
{
    let ghost old_view = space@;
    let found = space.find(path);
    match found {
        Some(i) => {
            proof {
                lemma_index_unique(old_view, path@, i as int);
            }
            space.listeners.remove(i);
            proof {
                assert(space@ =~= spec_unbind(old_view, path@));
            }
        },
        None => {
            proof {
                assert(space@ =~= spec_unbind(old_view, path@));
            }
        },
    }
    let fresh = Listener { path: slice_to_vec(path), peer, inbox: Vec::new() };
    proof {
        assert(fresh@ == (ListenerModel { path: path@, peer: fresh.peer@, inbox: Seq::empty() }))
            by {
            assert(fresh@.inbox =~= Seq::<Seq<u8>>::empty());
        }
    }
    space.listeners.push(fresh);
    proof {
        assert(space@ =~= spec_bind(old_view, path@, peer@));
        lemma_bind_exclusive(old_view, path@, peer@);
    }
    Ok(ListenerHandle { path: slice_to_vec(path) })
}

/// Opens a connection to the endpoint at `path`. Fails — with a connection
/// error naming the path — exactly when no listener is bound there; never
/// hangs. The fresh stream has sent nothing and is still open for writing.
pub fn connect(space: &SocketSpace, path: &[u8]) -> (r: Result<Stream, TransportError>)
    requires
        space_wf(space@),
    ensures
        r is Ok <==> has_listener(space@, path@),
        r matches Ok(st) ==> st.path@ == path@ && st.sent@ == Seq::<u8>::empty()
            && !st.write_closed && st.reply@ == Seq::<u8>::empty(),
        r matches Err(e) ==> e matches TransportError::ConnectionRefused { path: p } && p@
            == path@,
{
    match space.find(path) {
        Some(_) => Ok(
            Stream {
                path: slice_to_vec(path),
                sent: Vec::new(),
                write_closed: false,
                reply: Vec::new(),
            },
        ),
        None => Err(TransportError::ConnectionRefused { path: slice_to_vec(path) }),
    }
}

/// Connects to `path`, writes the whole of `contents`, and signals
/// end-of-output, so the peer's blocking read terminates. Fails — leaving
/// every endpoint untouched — exactly when no listener is bound at `path`.
/// On success the complete request sits in that listener's inbox, nothing
/// else changes, and the returned stream is half-closed with the peer's
/// reply pending.
pub fn write(space: &mut SocketSpace, path: &[u8], contents: &Vec<u8>) -> (r: Result<
    Stream,
    TransportError,
>)
    requires
        space_wf(old(space)@),
    ensures
        space_wf(final(space)@),
        r is Ok <==> has_listener(old(space)@, path@),
        r matches Err(e) ==> final(space)@ == old(space)@ && (e matches
            TransportError::ConnectionRefused { path: p } && p@ == path@),
        r matches Ok(st) ==> {
            &&& final(space)@ == spec_deliver(old(space)@, path@, contents@)
            &&& st.path@ == path@
            &&& st.sent@ == contents@
            &&& st.write_closed
            &&& st.reply@ == peer_reply(listener_at(old(space)@, path@).peer, contents@)
        },
{
    let ghost old_view = space@;
    let found = space.find(path);
    let i = match found {
        Some(i) => i,
        None => {
            return Err(TransportError::ConnectionRefused { path: slice_to_vec(path) });
        },
    };
    proof {
        lemma_index_unique(old_view, path@, i as int);
    }
    let reply: Vec<u8> = {
        let l: &Listener = &space.listeners[i];
        match &l.peer {
            PeerBehavior::Echoes => slice_to_vec(contents.as_slice()),
            PeerBehavior::Replies(r) => slice_to_vec(r.as_slice()),
        }
    };
    assert(reply@ == peer_reply(listener_at(old_view, path@).peer, contents@));
    let mut taken = space.listeners.remove(i);
    let ghost taken_view = taken@;
    taken.inbox.push(slice_to_vec(contents.as_slice()));
    proof {
        assert(taken@.inbox =~= taken_view.inbox.push(contents@));
        assert(taken@ == (ListenerModel {
            path: taken_view.path,
            peer: taken_view.peer,
            inbox: taken_view.inbox.push(contents@),
        }));
    }
    space.listeners.insert(i, taken);
    proof {
        assert(space@ =~= spec_deliver(old_view, path@, contents@));
        assert forall|a: int, b: int|
            0 <= a < b < space@.len() implies space@[a].path != space@[b].path by {
            assert(space@[a].path == old_view[a].path);
            assert(space@[b].path == old_view[b].path);
        }
    }
    Ok(
        Stream {
            path: slice_to_vec(path),
            sent: slice_to_vec(contents.as_slice()),
            write_closed: true,
            reply,
        },
    )
}

/// Reads the peer's whole reply from a half-closed stream: it returns
/// exactly the bytes the peer sends back for the delivered request. The
/// stream must have signaled end-of-output first — otherwise the peer,
/// which reads until end-of-input, would never reply and the call would
/// block forever.
pub fn read_from_stream(stream: &Stream) -> (r: Result<Vec<u8>, TransportError>)
    requires
        stream.write_closed,
    ensures
        r matches Ok(b) && b@ == stream.reply@,
{
    Ok(slice_to_vec(stream.reply.as_slice()))
}

/// Accepts one pending connection on the listener and reads its whole
/// request. The caller must know a complete request is pending: with none,
/// the real call blocks until a peer connects — it never returns a
/// spurious empty result, so the model excludes that case outright. The
/// oldest pending request is returned and leaves the inbox; nothing else
/// changes.
pub fn read(space: &mut SocketSpace, listener: &ListenerHandle) -> (r: Result<
    Vec<u8>,
    TransportError,
>)
    requires
        space_wf(old(space)@),
        has_listener(old(space)@, listener.path@),
        listener_at(old(space)@, listener.path@).inbox.len() > 0,
    ensures
        space_wf(final(space)@),
        final(space)@ == spec_take_first(old(space)@, listener.path@),
        r matches Ok(b) && b@ == listener_at(old(space)@, listener.path@).inbox[0],
{
    let ghost old_view = space@;
    let found = space.find(listener.path.as_slice());
    let i = match found {
        Some(i) => i,
        None => {
            proof {
                assert(false);
            }
            return Err(TransportError::ConnectionRefused { path: slice_to_vec(
                listener.path.as_slice(),
            ) });
        },
    };
    proof {
        lemma_index_unique(old_view, listener.path@, i as int);
    }
    let mut taken = space.listeners.remove(i);
    let ghost taken_view = taken@;
    let msg = taken.inbox.remove(0);
    proof {
        assert(msg@ == taken_view.inbox[0]);
        assert(taken@.inbox =~= taken_view.inbox.drop_first());
        assert(taken@ == (ListenerModel {
            path: taken_view.path,
            peer: taken_view.peer,
            inbox: taken_view.inbox.drop_first(),
        }));
    }
    space.listeners.insert(i, taken);
    proof {
        assert(space@ =~= spec_take_first(old_view, listener.path@));
        assert forall|a: int, b: int|
            0 <= a < b < space@.len() implies space@[a].path != space@[b].path by {
            assert(space@[a].path == old_view[a].path);
            assert(space@[b].path == old_view[b].path);
        }
    }
    Ok(msg)
}

/// One whole exchange: connect to `path`, write `contents`, signal
/// end-of-output, and block reading the full reply. Fails — with a
/// connection error naming the path, touching nothing — exactly when no
/// listener is bound at `path`. On success the request sits in the
/// listener's inbox and the result is precisely the reply its owner's
/// behavior fixes for `contents`; in particular a peer that echoes returns
/// `contents` itself, unchanged and complete.
pub fn write_and_read(space: &mut SocketSpace, path: &[u8], contents: &Vec<u8>) -> (r: Result<
    Vec<u8>,
    TransportError,
>)
    requires
        space_wf(old(space)@),
    ensures
        space_wf(final(space)@),
        r is Ok <==> has_listener(old(space)@, path@),
        r matches Err(e) ==> final(space)@ == old(space)@ && (e matches
            TransportError::ConnectionRefused { path: p } && p@ == path@),
        r matches Ok(b) ==> {
            &&& final(space)@ == spec_deliver(old(space)@, path@, contents@)
            &&& b@ == peer_reply(listener_at(old(space)@, path@).peer, contents@)
        },
        has_listener(old(space)@, path@) && listener_at(old(space)@, path@).peer
            == PeerModel::Echoes ==> (r matches Ok(b) && b@ == contents@),
{
    match write(space, path, contents) {
        Ok(stream) => read_from_stream(&stream),
        Err(e) => Err(e),
    }
}

/// How many live listeners hold `path` — observably, after `bind` twice on
/// one path, one.
pub fn listener_count(space: &SocketSpace, path: &[u8]) -> (r: usize)
    ensures
        r == live_listeners(space@, path@),
{
    let mut count: usize = 0;
    let mut i: usize = 0;
    while i < space.listeners.len()
        invariant
            i <= space.listeners@.len(),
            space@.len() == space.listeners@.len(),
            count <= i,
            count == live_listeners(space@.subrange(0, i as int), path@),
        decreases space.listeners@.len() - i,
    {
        let ghost prefix = space@.subrange(0, i as int);
        let l: &Listener = &space.listeners[i];
        if bytes_eq(l.path.as_slice(), path) {
            count += 1;
        }
        proof {
            assert(space@.subrange(0, i + 1).drop_last() =~= prefix);
            assert(space@.subrange(0, i + 1).last() == space@[i as int]);
        }
        i += 1;
    }
    proof {
        assert(space@.subrange(0, space@.len() as int) =~= space@);
    }
    count
}

} // verus!
