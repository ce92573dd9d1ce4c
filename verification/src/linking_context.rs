//! The linking context: the two-way table between an object's process-wide
//! identity and its small network identifier, plus the counter that mints
//! fresh identifiers.
//!
//! The table's invariant is the one the wire format depends on: one
//! identity maps to at most one identifier, one identifier names at most
//! one live object, and the two directions always agree.

use crate::object::{NetObject, ObjView};
use crate::reflect::FieldValue;
use crate::stream::{GameIoError, InputMemoryStream, OutputMemoryStream};
use std::collections::HashMap;
use vstd::prelude::*;

verus! {

/// The mathematical shape of a linking context: the forward map from
/// identity to network identifier, the reverse map from identifier to
/// object, and the next identifier to mint.
pub struct LinkView {
    /// The next network identifier to mint.
    pub next_id: nat,
    /// Identity to network identifier.
    pub fwd: Map<usize, usize>,
    /// Network identifier to object.
    pub rev: Map<usize, ObjView>,
}

/// The two directions agree, and every minted identifier lies below the
/// counter, except that a table holding the largest representable
/// identifier has a saturated counter.
pub open spec fn link_inv(v: LinkView) -> bool {
    &&& forall|ident: usize| #[trigger]
        v.fwd.contains_key(ident) ==> v.rev.contains_key(v.fwd[ident]) && v.rev[v.fwd[ident]].id
            == ident
    &&& forall|id: usize| #[trigger]
        v.rev.contains_key(id) ==> v.fwd.contains_key(v.rev[id].id) && v.fwd[v.rev[id].id] == id
    &&& forall|id: usize| #[trigger]
        v.rev.contains_key(id) ==> (id as nat) < v.next_id || (id == usize::MAX && v.next_id
            == usize::MAX as nat)
    &&& v.next_id <= usize::MAX as nat
}

/// What one identifier request does to the table: an already-known
/// identity answers with its identifier and changes nothing; an unknown
/// identity mints the next identifier when creation is asked for, and
/// answers with nothing otherwise.
pub open spec fn spec_get_network_id(v: LinkView, o: ObjView, should_create: bool) -> (
    LinkView,
    Option<usize>,
) {
    if v.fwd.contains_key(o.id) {
        (v, Some(v.fwd[o.id]))
    } else if should_create {
        (
            LinkView {
                next_id: v.next_id + 1,
                fwd: v.fwd.insert(o.id, v.next_id as usize),
                rev: v.rev.insert(v.next_id as usize, o),
            },
            Some(v.next_id as usize),
        )
    } else {
        (v, None)
    }
}

/// Identity resolution table bridging local object identity and
/// wire-level identifiers.
#[derive(Debug)]
pub struct LinkingContext {
    next_id: usize,
    id_to_go: HashMap<usize, NetObject>,
    go_to_id: HashMap<usize, usize>,
}

impl View for LinkingContext {
    type V = LinkView;

    closed spec fn view(&self) -> LinkView {
        LinkView {
            next_id: self.next_id as nat,
            fwd: self.go_to_id@,
            rev: self.id_to_go@.map_values(|o: NetObject| o@),
        }
    }
}

impl LinkingContext {
    /// The table's invariant holds.
    pub open spec fn wf(&self) -> bool {
        link_inv(self@)
    }

    /// An empty table whose counter starts at zero.
    pub fn new() -> (r: Self)
        ensures
            r.wf(),
            r@.next_id == 0,
            r@.fwd == Map::<usize, usize>::empty(),
            r@.rev == Map::<usize, ObjView>::empty(),
    {
        let r = Self { next_id: 0, id_to_go: HashMap::new(), go_to_id: HashMap::new() };
        proof {
            assert(r@.rev =~= Map::<usize, ObjView>::empty());
            assert(r@.fwd =~= Map::<usize, usize>::empty());
        }
        r
    }

    /// Resolves an object's identity to its network identifier, minting
    /// the next identifier when the identity is unknown and creation is
    /// asked for.
    pub fn get_network_id(&mut self, go: &NetObject, should_create: bool) -> (r: Option<usize>)
        requires
            old(self).wf(),
            should_create ==> old(self)@.next_id < usize::MAX as nat,
        ensures
            final(self).wf(),
            ({
                let (v2, res) = spec_get_network_id(old(self)@, go@, should_create);
                final(self)@ == v2 && r == res
            }),
    {
        match self.go_to_id.get(&go.id) {
            Some(id) => Some(*id),
            None => {
                if should_create {
                    let id = self.next_id;
                    self.next_id = self.next_id + 1;
                    self.id_to_go.insert(id, go.duplicate());
                    self.go_to_id.insert(go.id, id);
                    proof {
                        assert(self@.rev =~= old(self)@.rev.insert(id, go@));
                        assert(self@.fwd =~= old(self)@.fwd.insert(go.id, id));
                    }
                    Some(id)
                } else {
                    None
                }
            },
        }
    }

    /// Resolves a network identifier to the object registered under it.
    pub fn get_game_object(&self, id: usize) -> (r: Option<&NetObject>)
        requires
            self.wf(),
        ensures
            match r {
                Some(o) => self@.rev.contains_key(id) && o@ == self@.rev[id],
                None => !self@.rev.contains_key(id),
            },
    {
        self.id_to_go.get(&id)
    }

    /// Registers an externally constructed object under an explicit
    /// identifier, as the decode path does when it first meets an
    /// identifier on the wire.  The counter skips past the identifier so
    /// a later assignment never mints it again.
    pub fn insert_game_object(&mut self, go: NetObject, id: usize)
        requires
            old(self).wf(),
            !old(self)@.fwd.contains_key(go@.id),
            !old(self)@.rev.contains_key(id),
        ensures
            final(self).wf(),
            final(self)@.fwd == old(self)@.fwd.insert(go@.id, id),
            final(self)@.rev == old(self)@.rev.insert(id, go@),
            final(self)@.next_id == if (id as nat) >= old(self)@.next_id {
                if id == usize::MAX {
                    usize::MAX as nat
                } else {
                    (id as nat) + 1
                }
            } else {
                old(self)@.next_id
            },
    {
        if id >= self.next_id {
            if id == usize::MAX {
                self.next_id = usize::MAX;
            } else {
                self.next_id = id + 1;
            }
        }
        let ghost pre = self@;
        self.go_to_id.insert(go.id, id);
        self.id_to_go.insert(id, go);
        proof {
            assert(self@.rev =~= pre.rev.insert(id, self.id_to_go@[id]@));
            assert(self@.fwd =~= pre.fwd.insert(self.id_to_go@[id].id, id));
        }
    }

    /// Replaces the stored field values of the object registered under
    /// the given network identifier, as the decode path does when a
    /// snapshot carries fresh state for a known object.
    pub fn update_fields(&mut self, id: usize, fields: Vec<FieldValue>)
        requires
            old(self).wf(),
            old(self)@.rev.contains_key(id),
        ensures
            final(self).wf(),
            final(self)@.fwd == old(self)@.fwd,
            final(self)@.next_id == old(self)@.next_id,
            final(self)@.rev == old(self)@.rev.insert(
                id,
                ObjView {
                    id: old(self)@.rev[id].id,
                    class_id: old(self)@.rev[id].class_id,
                    fields: crate::reflect::field_views(fields@),
                },
            ),
    {
        let mut o = self.id_to_go.remove(&id).unwrap();
        o.fields = fields;
        self.id_to_go.insert(id, o);
        proof {
            assert(self@.rev =~= old(self)@.rev.insert(
                id,
                ObjView {
                    id: old(self)@.rev[id].id,
                    class_id: old(self)@.rev[id].class_id,
                    fields: crate::reflect::field_views(self.id_to_go@[id].fields@),
                },
            ));
            assert(self@.fwd =~= old(self)@.fwd);
        }
    }

    /// Deletes both directions for the given object.
    pub fn remove_game_object(&mut self, go: &NetObject)
        requires
            old(self).wf(),
            old(self)@.fwd.contains_key(go@.id),
        ensures
            final(self).wf(),
            final(self)@.fwd == old(self)@.fwd.remove(go@.id),
            final(self)@.rev == old(self)@.rev.remove(old(self)@.fwd[go@.id]),
            final(self)@.next_id == old(self)@.next_id,
    {
        let id = *self.go_to_id.get(&go.id).unwrap();
        self.id_to_go.remove(&id);
        self.go_to_id.remove(&go.id);
        proof {
            assert(self@.rev =~= old(self)@.rev.remove(id));
            assert(self@.fwd =~= old(self)@.fwd.remove(go@.id));
        }
    }

    /// Deletes both directions for the object registered under the given
    /// network identifier.
    pub fn remove_network_id(&mut self, id: usize)
        requires
            old(self).wf(),
            old(self)@.rev.contains_key(id),
        ensures
            final(self).wf(),
            final(self)@.rev == old(self)@.rev.remove(id),
            final(self)@.fwd == old(self)@.fwd.remove(old(self)@.rev[id].id),
            final(self)@.next_id == old(self)@.next_id,
    {
        let ident = self.id_to_go.get(&id).unwrap().id;
        self.id_to_go.remove(&id);
        self.go_to_id.remove(&ident);
        proof {
            assert(self@.rev =~= old(self)@.rev.remove(id));
            assert(self@.fwd =~= old(self)@.fwd.remove(ident));
        }
    }
}

/// Writes a reference to a networked object: its network identifier, not
/// its data.  An identity with no minted identifier is refused with the
/// unregistered error, which carries zero as its placeholder, since no
/// identifier exists to name.
pub fn write_game_object_ref(
    stream: &mut OutputMemoryStream,
    ctx: &mut LinkingContext,
    go: &NetObject,
) -> (r: Result<(), GameIoError>)
    requires
        old(stream).wf(),
        old(ctx).wf(),
        old(stream).bits().len() + usize::BITS <= usize::MAX - 7,
    ensures
        final(stream).wf(),
        final(ctx).wf(),
        final(ctx)@ == old(ctx)@,
        old(ctx)@.fwd.contains_key(go@.id) ==> r == Ok::<(), GameIoError>(())
            && final(stream).bits() == old(stream).bits() + crate::codec::enc_word(
            old(ctx)@.fwd[go@.id],
        ),
        !old(ctx)@.fwd.contains_key(go@.id) ==> r == Err::<(), GameIoError>(
            GameIoError::UnregisteredGameObject(0),
        ) && final(stream).bits() == old(stream).bits(),
{
    match ctx.get_network_id(go, false) {
        Some(id) => {
            stream.write_usize(id)?;
            Ok(())
        },
        None => Err(GameIoError::UnregisteredGameObject(0)),
    }
}

/// Reads a reference to a networked object: resolves the identifier on
/// the wire through the table.  An unknown identifier yields the
/// unregistered error carrying it, the hook the replication manager uses
/// to tell first contact from an already-known object.
pub fn read_game_object_ref<'a>(
    stream: &mut InputMemoryStream,
    ctx: &'a LinkingContext,
) -> (r: Result<&'a NetObject, GameIoError>)
    requires
        old(stream).wf(),
        ctx.wf(),
    ensures
        final(stream).wf(),
        final(stream).data() == old(stream).data(),
        match crate::codec::dec_word(old(stream).data(), old(stream).cursor()) {
            Some((id, h)) => {
                &&& final(stream).cursor() == h
                &&& ctx@.rev.contains_key(id) ==> (r matches Ok(o) && o@ == ctx@.rev[id])
                &&& !ctx@.rev.contains_key(id) ==> r == Err::<&'a NetObject, GameIoError>(
                    GameIoError::UnregisteredGameObject(id),
                )
            },
            None => r matches Err(GameIoError::UnexpectedEof(_, _)) && *final(stream)
                == *old(stream),
        },
{
    let id = stream.read_usize()?;
    match ctx.get_game_object(id) {
        Some(o) => Ok(o),
        None => Err(GameIoError::UnregisteredGameObject(id)),
    }
}

/// Writes a possibly-absent reference: one presence bit, then the
/// identifier only when an object is at hand.  A non-owning back-reference
/// travels this way, so absence is explicit on the wire.
pub fn write_opt_game_object_ref(
    stream: &mut OutputMemoryStream,
    ctx: &mut LinkingContext,
    go: Option<&NetObject>,
) -> (r: Result<(), GameIoError>)
    requires
        old(stream).wf(),
        old(ctx).wf(),
        old(stream).bits().len() + 1 + usize::BITS <= usize::MAX - 7,
    ensures
        final(stream).wf(),
        final(ctx).wf(),
        final(ctx)@ == old(ctx)@,
        match go {
            Some(o) => {
                &&& old(ctx)@.fwd.contains_key(o@.id) ==> r == Ok::<(), GameIoError>(())
                    && final(stream).bits() == old(stream).bits() + crate::bits::to_bits(1, 1)
                    + crate::codec::enc_word(old(ctx)@.fwd[o@.id])
                &&& !old(ctx)@.fwd.contains_key(o@.id) ==> r == Err::<(), GameIoError>(
                    GameIoError::UnregisteredGameObject(0),
                ) && final(stream).bits() == old(stream).bits() + crate::bits::to_bits(1, 1)
            },
            None => r == Ok::<(), GameIoError>(()) && final(stream).bits() == old(stream).bits()
                + crate::bits::to_bits(0, 1),
        },
{
    match go {
        Some(o) => {
            stream.write_bool_bits(true, 1)?;
            write_game_object_ref(stream, ctx, o)
        },
        None => {
            stream.write_bool_bits(false, 1)?;
            Ok(())
        },
    }
}

/// Reads a possibly-absent reference: the presence bit, then the resolved
/// object only when the bit was set.  An unknown identifier yields the
/// unregistered error carrying it.
pub fn read_opt_game_object_ref<'a>(
    stream: &mut InputMemoryStream,
    ctx: &'a LinkingContext,
) -> (r: Result<Option<&'a NetObject>, GameIoError>)
    requires
        old(stream).wf(),
        ctx.wf(),
    ensures
        final(stream).wf(),
        final(stream).data() == old(stream).data(),
        old(stream).cursor() + 1 <= old(stream).data().len() ==> {
            let flag = crate::bits::from_bits(
                old(stream).data().subrange(
                    old(stream).cursor() as int,
                    (old(stream).cursor() + 1) as int,
                ),
            ) > 0;
            &&& !flag ==> r == Ok::<Option<&'a NetObject>, GameIoError>(None)
                && final(stream).cursor() == old(stream).cursor() + 1
            &&& flag ==> match crate::codec::dec_word(
                old(stream).data(),
                old(stream).cursor() + 1,
            ) {
                Some((id, h)) => {
                    &&& final(stream).cursor() == h
                    &&& ctx@.rev.contains_key(id) ==> (r matches Ok(o) && o matches Some(obj)
                        && obj@ == ctx@.rev[id])
                    &&& !ctx@.rev.contains_key(id) ==> r == Err::<
                        Option<&'a NetObject>,
                        GameIoError,
                    >(GameIoError::UnregisteredGameObject(id))
                },
                None => r matches Err(GameIoError::UnexpectedEof(_, _)),
            }
        },
        old(stream).cursor() + 1 > old(stream).data().len() ==> (r matches Err(
            GameIoError::UnexpectedEof(_, _),
        ) && *final(stream) == *old(stream)),
{
    let present = stream.read_bool_bits(1)?;
    if !present {
        return Ok(None);
    }
    let o = read_game_object_ref(stream, ctx)?;
    Ok(Some(o))
}

/// Identity stability: assigning an identifier to an identity and asking
/// again, with or without creation, yields the same identifier and leaves
/// the table unchanged; an identity never assigned resolves to nothing
/// without creation.
pub proof fn lemma_identity_stability(v: LinkView, o: ObjView)
    requires
        link_inv(v),
        v.next_id < usize::MAX as nat,
    ensures
        ({
            let (v1, r1) = spec_get_network_id(v, o, true);
            let (v2, r2) = spec_get_network_id(v1, o, true);
            let (v3, r3) = spec_get_network_id(v1, o, false);
            &&& r1 is Some
            &&& r2 == r1
            &&& v2 == v1
            &&& r3 == r1
            &&& v3 == v1
        }),
        !v.fwd.contains_key(o.id) ==> spec_get_network_id(v, o, false).1 is None
            && spec_get_network_id(v, o, false).0 == v,
{
}

} // verus!
