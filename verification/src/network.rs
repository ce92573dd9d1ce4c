//! The replication layer: per-object headers for the explicit
//! create/update/destroy path, the class registry that manufactures
//! default instances on first contact, and the manager that serializes
//! world snapshots and reconstructs them, inferring destroys from absence.
//!
//! The two paths are separate wire formats, never mixed on one stream: a
//! snapshot packet carries no explicit destroy signal, since absence
//! drives removal on the receive pass; the action-based path carries its
//! intent in every header, and a decoded destroy header drives removal
//! directly.

use crate::bits::{from_bits, to_bits};
use crate::codec::{dec_fields, dec_word, enc_fields, enc_word, word_bits};
use crate::linking_context::{LinkingContext, LinkView};
use crate::object::{NetObject, ObjView};
use crate::reflect::{field_views, values_match, FieldValView, FieldValue, Ty, UserDefinedType};
use crate::stream::{GameIoError, InputMemoryStream, OutputMemoryStream};
use std::collections::HashMap;
use vstd::prelude::*;

verus! {

/// What a packet carries.
#[derive(Clone, Copy, Debug, PartialEq, Eq, Structural)]
pub enum PacketType {
    /// A greeting.
    Hello,
    /// A world-state snapshot.
    ReplicationData,
    /// A goodbye.
    Disconnect,
}

impl PacketType {
    /// The wire tag of this packet type.
    pub open spec fn spec_tag(self) -> u8 {
        match self {
            PacketType::Hello => 0,
            PacketType::ReplicationData => 1,
            PacketType::Disconnect => 2,
        }
    }

    /// The wire tag of this packet type.
    pub fn tag(self) -> (r: u8)
        ensures
            r == self.spec_tag(),
    {
        match self {
            PacketType::Hello => 0,
            PacketType::ReplicationData => 1,
            PacketType::Disconnect => 2,
        }
    }
}

/// The intent of one replication header.
#[derive(Clone, Copy, Debug, PartialEq, Eq, Structural)]
pub enum ReplicationAction {
    /// The object is new to the peer.
    Create,
    /// The object's state changed.
    Update,
    /// The object is gone.
    Destroy,
}

impl ReplicationAction {
    /// The wire tag of this action.
    pub open spec fn spec_tag(self) -> u8 {
        match self {
            ReplicationAction::Create => 0,
            ReplicationAction::Update => 1,
            ReplicationAction::Destroy => 2,
        }
    }

    /// The wire tag of this action.
    pub fn tag(self) -> (r: u8)
        ensures
            r == self.spec_tag(),
    {
        match self {
            ReplicationAction::Create => 0,
            ReplicationAction::Update => 1,
            ReplicationAction::Destroy => 2,
        }
    }

    /// The action a wire tag names, if any.
    pub open spec fn spec_from_tag(t: u8) -> Option<ReplicationAction> {
        if t == 0 {
            Some(ReplicationAction::Create)
        } else if t == 1 {
            Some(ReplicationAction::Update)
        } else if t == 2 {
            Some(ReplicationAction::Destroy)
        } else {
            None
        }
    }

    /// The action a wire tag names, if any.
    pub fn from_tag(t: u8) -> (r: Option<ReplicationAction>)
        ensures
            r == Self::spec_from_tag(t),
    {
        if t == 0 {
            Some(ReplicationAction::Create)
        } else if t == 1 {
            Some(ReplicationAction::Update)
        } else if t == 2 {
            Some(ReplicationAction::Destroy)
        } else {
            None
        }
    }
}

/// The unit of per-object replication intent: the action, the object's
/// network identifier, and its class tag.
#[derive(Clone, Copy, Debug, PartialEq, Eq, Structural)]
pub struct ReplicationHeader {
    /// The intent.
    pub action: ReplicationAction,
    /// The object's network identifier.
    pub network_id: usize,
    /// The object's class tag.
    pub class_id: u32,
}

/// The wire form of a replication header: the action tag as one byte, the
/// identifier as a machine word, the class tag at 32 bits.
pub open spec fn enc_header(h: ReplicationHeader) -> Seq<bool> {
    to_bits(h.action.spec_tag() as u64, 8) + enc_word(h.network_id) + to_bits(
        h.class_id as u64,
        32,
    )
}

/// Decodes the raw parts of a replication header at `head`: the action
/// tag, the identifier, the class tag, and the next cursor.
pub open spec fn dec_header_raw(data: Seq<bool>, head: nat) -> Option<(u8, usize, u32, nat)> {
    if head + 8 + word_bits() + 32 <= data.len() {
        Some(
            (
                from_bits(data.subrange(head as int, head as int + 8)) as u8,
                from_bits(
                    data.subrange(head as int + 8, head as int + 8 + word_bits() as int),
                ) as usize,
                from_bits(
                    data.subrange(
                        head as int + 8 + word_bits() as int,
                        head as int + 8 + word_bits() as int + 32,
                    ),
                ) as u32,
                head + 8 + word_bits() + 32,
            ),
        )
    } else {
        None
    }
}

impl ReplicationHeader {
    /// Appends this header to the stream.
    pub fn write_byte(&self, stream: &mut OutputMemoryStream) -> (r: Result<(), GameIoError>)
        requires
            old(stream).wf(),
            old(stream).bits().len() + 8 + usize::BITS + 32 <= usize::MAX - 7,
        ensures
            final(stream).wf(),
            r == Ok::<(), GameIoError>(()),
            final(stream).bits() == old(stream).bits() + enc_header(*self),
    {
        stream.write_u8(self.action.tag())?;
        stream.write_usize(self.network_id)?;
        stream.write_u32(self.class_id)?;
        proof {
            assert(old(stream).bits() + to_bits(self.action.spec_tag() as u64, 8) + enc_word(
                self.network_id,
            ) + to_bits(self.class_id as u64, 32) =~= old(stream).bits() + enc_header(*self));
        }
        Ok(())
    }

    /// Reads a header from the stream, refusing an action tag outside the
    /// known range.
    pub fn read_byte(stream: &mut InputMemoryStream) -> (r: Result<ReplicationHeader, GameIoError>)
        requires
            old(stream).wf(),
        ensures
            final(stream).wf(),
            final(stream).data() == old(stream).data(),
            match dec_header_raw(old(stream).data(), old(stream).cursor()) {
                Some((t, id, class, h)) => {
                    match ReplicationAction::spec_from_tag(t) {
                        Some(action) => {
                            &&& r == Ok::<ReplicationHeader, GameIoError>(
                                ReplicationHeader { action, network_id: id, class_id: class },
                            )
                            &&& final(stream).cursor() == h
                        },
                        None => r == Err::<ReplicationHeader, GameIoError>(
                            GameIoError::InvalidAction(t),
                        ),
                    }
                },
                None => r matches Err(GameIoError::UnexpectedEof(_, _)),
            },
    {
        let t = stream.read_u8()?;
        let network_id = stream.read_usize()?;
        let class_id = stream.read_u32()?;
        match ReplicationAction::from_tag(t) {
            Some(action) => Ok(ReplicationHeader { action, network_id, class_id }),
            None => Err(GameIoError::InvalidAction(t)),
        }
    }
}

/// The mathematical shape of one registered class: the field kinds and
/// the default values a fresh instance starts from.
pub struct ClassView {
    /// The field kinds, in declared order.
    pub kinds: Seq<Ty>,
    /// The default field values.
    pub defaults: Seq<FieldValView>,
}

/// The mathematical shape of a registry: the registered classes and the
/// next identity to give a manufactured object.
pub struct RegView {
    /// Class tag to class shape.
    pub classes: Map<u32, ClassView>,
    /// The next process-wide identity to mint.
    pub next_identity: nat,
}

/// One registered class: the descriptors and the defaults.
#[derive(Debug)]
struct ClassProto {
    layout: UserDefinedType,
    defaults: Vec<FieldValue>,
}

/// Class tag to factory: manufactures a default instance of a class when
/// decode meets an identifier it has never seen.
#[derive(Debug)]
pub struct ObjectRegistry {
    fabrics: HashMap<u32, ClassProto>,
    next_identity: usize,
}

impl View for ObjectRegistry {
    type V = RegView;

    closed spec fn view(&self) -> RegView {
        RegView {
            classes: self.fabrics@.map_values(
                |p: ClassProto|
                    ClassView { kinds: p.layout.kinds(), defaults: field_views(p.defaults@) },
            ),
            next_identity: self.next_identity as nat,
        }
    }
}

impl ObjectRegistry {
    /// Every registered class's defaults match its kinds.
    pub open spec fn wf(&self) -> bool {
        forall|c: u32| #[trigger]
            self@.classes.contains_key(c) ==> values_match(
                self@.classes[c].kinds,
                self@.classes[c].defaults,
            )
    }

    /// An empty registry whose identity counter starts at zero.
    pub fn new() -> (r: Self)
        ensures
            r.wf(),
            r@.classes == Map::<u32, ClassView>::empty(),
            r@.next_identity == 0,
    {
        let r = Self { fabrics: HashMap::new(), next_identity: 0 };
        proof {
            assert(r@.classes =~= Map::<u32, ClassView>::empty());
        }
        r
    }

    /// Registers a class: its descriptors and the default values a fresh
    /// instance starts from.
    pub fn register(&mut self, class_id: u32, layout: UserDefinedType, defaults: Vec<FieldValue>)
        requires
            old(self).wf(),
            values_match(layout.kinds(), field_views(defaults@)),
        ensures
            final(self).wf(),
            final(self)@.classes == old(self)@.classes.insert(
                class_id,
                ClassView { kinds: layout.kinds(), defaults: field_views(defaults@) },
            ),
            final(self)@.next_identity == old(self)@.next_identity,
    {
        let ghost pre = self@;
        self.fabrics.insert(class_id, ClassProto { layout, defaults });
        proof {
            assert(self@.classes =~= pre.classes.insert(
                class_id,
                self@.classes[class_id],
            ));
        }
    }

    /// The descriptors of a registered class.
    pub fn get_layout(&self, class_id: u32) -> (r: Option<&UserDefinedType>)
        ensures
            match r {
                Some(layout) => self@.classes.contains_key(class_id) && layout.kinds()
                    == self@.classes[class_id].kinds,
                None => !self@.classes.contains_key(class_id),
            },
    {
        match self.fabrics.get(&class_id) {
            Some(proto) => Some(&proto.layout),
            None => None,
        }
    }

    /// Manufactures a default instance of a class under a fresh identity,
    /// or nothing when the class tag is unknown.
    pub fn create_game_object(&mut self, class_id: u32) -> (r: Option<NetObject>)
        requires
            old(self).wf(),
            old(self)@.next_identity < usize::MAX as nat,
        ensures
            final(self).wf(),
            final(self)@.classes == old(self)@.classes,
            match r {
                Some(o) => {
                    &&& old(self)@.classes.contains_key(class_id)
                    &&& o@.id as nat == old(self)@.next_identity
                    &&& o@.class_id == class_id
                    &&& o@.fields == old(self)@.classes[class_id].defaults
                    &&& final(self)@.next_identity == old(self)@.next_identity + 1
                },
                None => !old(self)@.classes.contains_key(class_id) && final(self)@ == old(self)@,
            },
    {
        match self.fabrics.get(&class_id) {
            Some(proto) => {
                let fields = crate::reflect::duplicate_fields(&proto.defaults);
                let id = self.next_identity;
                self.next_identity = self.next_identity + 1;
                proof {
                    assert(self@.classes =~= old(self)@.classes);
                }
                Some(NetObject::new(id, class_id, fields))
            },
            None => {
                proof {
                    assert(self@.classes =~= old(self)@.classes);
                }
                None
            },
        }
    }
}

/// The wire form of one object chunk on the snapshot path: the network
/// identifier as a machine word, the class tag at 32 bits, then the
/// reflected fields.
pub open spec fn enc_chunk(id: usize, class: u32, fields: Seq<FieldValView>) -> Seq<bool> {
    enc_word(id) + to_bits(class as u64, 32) + enc_fields(fields)
}

/// The views of a list of objects.
pub open spec fn obj_views(gos: Seq<NetObject>) -> Seq<ObjView> {
    gos.map_values(|o: NetObject| o@)
}

/// The wire form of a whole snapshot body: one chunk per object, in
/// order, each carrying the identifier the table assigns its identity.
pub open spec fn enc_world(fwd: Map<usize, usize>, gos: Seq<ObjView>) -> Seq<bool>
    decreases gos.len(),
{
    if gos.len() == 0 {
        Seq::<bool>::empty()
    } else {
        enc_chunk(fwd[gos[0].id], gos[0].class_id, gos[0].fields) + enc_world(fwd, gos.skip(1))
    }
}

/// Appending one object appends its chunk.
proof fn lemma_enc_world_snoc(fwd: Map<usize, usize>, gos: Seq<ObjView>, i: int)
    requires
        0 <= i < gos.len(),
    ensures
        enc_world(fwd, gos.take(i + 1)) == enc_world(fwd, gos.take(i)) + enc_chunk(
            fwd[gos[i].id],
            gos[i].class_id,
            gos[i].fields,
        ),
    decreases i,
{
    if i == 0 {
        let one = gos.take(1);
        assert(one.len() == 1 && one[0] == gos[0]);
        assert(one.skip(1) =~= Seq::<ObjView>::empty());
        assert(gos.take(0) =~= Seq::<ObjView>::empty());
        let chunk = enc_chunk(fwd[gos[0].id], gos[0].class_id, gos[0].fields);
        assert(enc_world(fwd, one) == chunk + enc_world(fwd, one.skip(1)));
        assert(chunk + Seq::<bool>::empty() =~= chunk);
        assert(Seq::<bool>::empty() + chunk =~= chunk);
    } else {
        lemma_enc_world_snoc(fwd, gos.skip(1), i - 1);
        assert(gos.take(i + 1).skip(1) =~= gos.skip(1).take(i));
        assert(gos.take(i).skip(1) =~= gos.skip(1).take(i - 1));
        assert(gos.take(i + 1)[0] == gos[0] && gos.take(i)[0] == gos[0]);
        assert(gos.skip(1)[i - 1] == gos[i]);
        assert(enc_chunk(fwd[gos[0].id], gos[0].class_id, gos[0].fields) + (enc_world(
            fwd,
            gos.skip(1).take(i - 1),
        ) + enc_chunk(fwd[gos[i].id], gos[i].class_id, gos[i].fields)) =~= (enc_chunk(
            fwd[gos[0].id],
            gos[0].class_id,
            gos[0].fields,
        ) + enc_world(fwd, gos.skip(1).take(i - 1))) + enc_chunk(
            fwd[gos[i].id],
            gos[i].class_id,
            gos[i].fields,
        ));
    }
}

/// An encoded prefix of a snapshot is no longer than the whole.
proof fn lemma_enc_world_len_monotone(fwd: Map<usize, usize>, gos: Seq<ObjView>, i: int)
    requires
        0 <= i < gos.len(),
    ensures
        enc_world(fwd, gos.take(i)).len() + enc_chunk(
            fwd[gos[i].id],
            gos[i].class_id,
            gos[i].fields,
        ).len() <= enc_world(fwd, gos).len(),
    decreases gos.len() - i,
{
    lemma_enc_world_snoc(fwd, gos, i);
    if i + 1 == gos.len() {
        assert(gos.take(i + 1) =~= gos);
    } else {
        lemma_enc_world_step_len(fwd, gos, i + 1);
    }
}

/// A longer snapshot prefix has a longer encoding.
proof fn lemma_enc_world_step_len(fwd: Map<usize, usize>, gos: Seq<ObjView>, i: int)
    requires
        0 <= i < gos.len(),
    ensures
        enc_world(fwd, gos.take(i)).len() <= enc_world(fwd, gos).len(),
    decreases gos.len() - i,
{
    lemma_enc_world_snoc(fwd, gos, i);
    if i + 1 == gos.len() {
        assert(gos.take(i + 1) =~= gos);
    } else {
        lemma_enc_world_step_len(fwd, gos, i + 1);
    }
}

/// Decodes one object chunk at `head`, parsing the fields with the
/// descriptor list of the class the chunk names.
pub open spec fn dec_chunk(data: Seq<bool>, head: nat, classes: Map<u32, ClassView>) -> Option<
    ((usize, u32, Seq<FieldValView>), nat),
> {
    match dec_word(data, head) {
        Some((id, h1)) => {
            if h1 + 32 <= data.len() {
                let class = from_bits(data.subrange(h1 as int, h1 as int + 32)) as u32;
                let h2 = (h1 + 32) as nat;
                if classes.contains_key(class) {
                    match dec_fields(data, h2, classes[class].kinds) {
                        Some((fs, h3)) => Some(((id, class, fs), h3)),
                        None => None,
                    }
                } else {
                    None
                }
            } else {
                None
            }
        },
        None => None,
    }
}

/// Decodes chunks until the buffer runs out: a snapshot body is chunks to
/// the very end, nothing else.
pub open spec fn dec_chunks(data: Seq<bool>, head: nat, classes: Map<u32, ClassView>) -> Option<
    Seq<(usize, u32, Seq<FieldValView>)>,
>
    decreases data.len() - head,
{
    if head >= data.len() {
        Some(Seq::<(usize, u32, Seq<FieldValView>)>::empty())
    } else {
        match dec_chunk(data, head, classes) {
            Some((c, h2)) => {
                if head < h2 <= data.len() {
                    match dec_chunks(data, h2, classes) {
                        Some(rest) => Some(seq![c] + rest),
                        None => None,
                    }
                } else {
                    None
                }
            },
            None => None,
        }
    }
}

/// A decoded chunk consumes its identifier and class tag at least, and
/// ends inside the data.
proof fn lemma_dec_chunk_range(data: Seq<bool>, head: nat, classes: Map<u32, ClassView>)
    requires
        head <= data.len(),
    ensures
        dec_chunk(data, head, classes) matches Some((c, h)) ==> head + word_bits() + 32 <= h
            <= data.len(),
{
    match dec_word(data, head) {
        Some((id, h1)) => {
            if h1 + 32 <= data.len() {
                let class = from_bits(data.subrange(h1 as int, h1 as int + 32)) as u32;
                if classes.contains_key(class) {
                    crate::codec::lemma_dec_fields_range(
                        data,
                        (h1 + 32) as nat,
                        classes[class].kinds,
                    );
                }
            }
        },
        None => {
        },
    }
}

/// Folding one more chunk is folding the run and then that chunk.
proof fn lemma_apply_chunks_snoc(
    s: RecvState,
    cs: Seq<(usize, u32, Seq<FieldValView>)>,
    c: (usize, u32, Seq<FieldValView>),
)
    ensures
        apply_chunks(s, cs.push(c)) == apply_chunk(apply_chunks(s, cs), c),
    decreases cs.len(),
{
    if cs.len() == 0 {
        assert(cs.push(c).len() == 1);
        assert(cs.push(c)[0] == c);
        assert(cs.push(c).skip(1) =~= Seq::<(usize, u32, Seq<FieldValView>)>::empty());
        assert(apply_chunks(s, cs.push(c)) == apply_chunks(
            apply_chunk(s, c),
            cs.push(c).skip(1),
        ));
        assert(apply_chunks(apply_chunk(s, c), Seq::<(usize, u32, Seq<FieldValView>)>::empty())
            == apply_chunk(s, c));
        assert(apply_chunks(s, cs) == s);
    } else {
        assert(cs.push(c)[0] == cs[0]);
        assert(cs.push(c).skip(1) =~= cs.skip(1).push(c));
        assert(apply_chunks(s, cs.push(c)) == apply_chunks(
            apply_chunk(s, cs[0]),
            cs.skip(1).push(c),
        ));
        lemma_apply_chunks_snoc(apply_chunk(s, cs[0]), cs.skip(1), c);
    }
}

/// Whether a list holds an identifier.
fn contains_id(v: &Vec<usize>, x: usize) -> (r: bool)
    ensures
        r == v@.contains(x),
{
    let mut i: usize = 0;
    while i < v.len()
        invariant
            i <= v@.len(),
            forall|j: int| 0 <= j < i ==> v@[j] != x,
        decreases v@.len() - i,
    {
        if v[i] == x {
            return true;
        }
        i = i + 1;
    }
    proof {
        assert(!v@.contains(x));
    }
    false
}

/// The chunk list a snapshot of these objects denotes: each object's
/// assigned identifier, class tag, and field values, in order.
pub open spec fn snapshot_chunks(fwd: Map<usize, usize>, gos: Seq<ObjView>) -> Seq<
    (usize, u32, Seq<FieldValView>),
> {
    Seq::new(gos.len(), |i: int| (fwd[gos[i].id], gos[i].class_id, gos[i].fields))
}

/// Snapshot round trip: decoding a serialized snapshot body with the
/// registry that matches its classes yields exactly one chunk per object,
/// in order, carrying the identifier, class tag, and field values the
/// sender wrote.  The whole replication cycle rests on this: what
/// `replicate_world_state` emits is what `recv_replicated_objects` folds
/// into the receiving table.
pub proof fn lemma_snapshot_round_trip(
    fwd: Map<usize, usize>,
    gos: Seq<ObjView>,
    classes: Map<u32, ClassView>,
)
    requires
        forall|i: int| 0 <= i < gos.len() ==> fwd.contains_key((#[trigger] gos[i]).id),
        forall|i: int|
            0 <= i < gos.len() ==> classes.contains_key((#[trigger] gos[i]).class_id)
                && classes[gos[i].class_id].kinds == crate::codec::kinds_of(gos[i].fields),
        enc_world(fwd, gos).len() <= usize::MAX,
    ensures
        dec_chunks(enc_world(fwd, gos), 0, classes) == Some(snapshot_chunks(fwd, gos)),
{
    lemma_chunks_of_enc_world(Seq::<bool>::empty(), fwd, gos, classes);
    assert(Seq::<bool>::empty() + enc_world(fwd, gos) =~= enc_world(fwd, gos));
}

/// Decoding chunks at the position where a snapshot body starts, with
/// nothing after it, yields one chunk per object.
proof fn lemma_chunks_of_enc_world(
    pre: Seq<bool>,
    fwd: Map<usize, usize>,
    gos: Seq<ObjView>,
    classes: Map<u32, ClassView>,
)
    requires
        forall|i: int| 0 <= i < gos.len() ==> fwd.contains_key((#[trigger] gos[i]).id),
        forall|i: int|
            0 <= i < gos.len() ==> classes.contains_key((#[trigger] gos[i]).class_id)
                && classes[gos[i].class_id].kinds == crate::codec::kinds_of(gos[i].fields),
        pre.len() + enc_world(fwd, gos).len() <= usize::MAX,
    ensures
        dec_chunks(pre + enc_world(fwd, gos), pre.len(), classes) == Some(
            snapshot_chunks(fwd, gos),
        ),
    decreases gos.len(),
{
    let data = pre + enc_world(fwd, gos);
    crate::stream::lemma_usize_width();
    crate::bits::lemma_pow2_values();
    if gos.len() == 0 {
        assert(data =~= pre);
        assert(snapshot_chunks(fwd, gos) =~= Seq::<(usize, u32, Seq<FieldValView>)>::empty());
    } else {
        let g = gos[0];
        let id = fwd[g.id];
        let chunk_bits = enc_chunk(id, g.class_id, g.fields);
        let rest_bits = enc_world(fwd, gos.skip(1));
        assert(enc_world(fwd, gos) == chunk_bits + rest_bits);
        assert(data =~= (pre + chunk_bits) + rest_bits);
        lemma_chunks_of_enc_world(pre + chunk_bits, fwd, gos.skip(1), classes);
        let head = pre.len();
        let h1 = head + word_bits();
        let h2 = h1 + 32;
        let h3 = head + chunk_bits.len();
        // The identifier comes back as written.
        assert(data.subrange(head as int, h1 as int) =~= enc_word(id));
        crate::bits::lemma_bits_round_trip(id as u64, word_bits());
        assert(dec_word(data, head) == Some((id, h1)));
        // So does the class tag.
        assert(data.subrange(h1 as int, h1 as int + 32) =~= to_bits(g.class_id as u64, 32));
        crate::bits::lemma_bits_round_trip(g.class_id as u64, 32);
        // And the fields.
        crate::codec::lemma_reflected_round_trip(
            pre + enc_word(id) + to_bits(g.class_id as u64, 32),
            g.fields,
            rest_bits,
        );
        assert(pre + enc_word(id) + to_bits(g.class_id as u64, 32) + enc_fields(g.fields)
            + rest_bits =~= data);
        assert((pre + enc_word(id) + to_bits(g.class_id as u64, 32)).len() == h2);
        assert(dec_fields(data, h2, classes[g.class_id].kinds) == Some((g.fields, h3)));
        assert(dec_chunk(data, head, classes) == Some(((id, g.class_id, g.fields), h3)));
        // The chunk is non-empty and inside the data, so decoding recurses
        // past it into the remaining objects.
        assert(head < h3 <= data.len());
        assert(head < data.len());
        assert(dec_chunks(data, h3, classes) == Some(snapshot_chunks(fwd, gos.skip(1))));
        assert(seq![(id, g.class_id, g.fields)] + snapshot_chunks(fwd, gos.skip(1))
            =~= snapshot_chunks(fwd, gos));
    }
}

/// The receive pass's working state: the table, the identity counter, and
/// the identifiers seen so far this cycle in order of first contact.
pub struct RecvState {
    /// The linking table.
    pub ctx: LinkView,
    /// The registry's next process-wide identity.
    pub next_identity: nat,
    /// The identifiers seen this cycle, first contact first, no repeats.
    pub seen: Seq<usize>,
}

/// What one decoded chunk does to the receive state: a known identifier
/// gets its stored fields replaced; an unknown one gets a freshly
/// manufactured object registered under it; either way the identifier
/// joins the seen set.
pub open spec fn apply_chunk(s: RecvState, c: (usize, u32, Seq<FieldValView>)) -> RecvState {
    let (id, class, fs) = c;
    let seen2 = if s.seen.contains(id) {
        s.seen
    } else {
        s.seen.push(id)
    };
    if s.ctx.rev.contains_key(id) {
        let o = s.ctx.rev[id];
        RecvState {
            ctx: LinkView {
                next_id: s.ctx.next_id,
                fwd: s.ctx.fwd,
                rev: s.ctx.rev.insert(
                    id,
                    ObjView { id: o.id, class_id: o.class_id, fields: fs },
                ),
            },
            next_identity: s.next_identity,
            seen: seen2,
        }
    } else {
        let ident = s.next_identity as usize;
        RecvState {
            ctx: LinkView {
                next_id: if (id as nat) >= s.ctx.next_id {
                    if id == usize::MAX {
                        usize::MAX as nat
                    } else {
                        (id as nat) + 1
                    }
                } else {
                    s.ctx.next_id
                },
                fwd: s.ctx.fwd.insert(ident, id),
                rev: s.ctx.rev.insert(id, ObjView { id: ident, class_id: class, fields: fs }),
            },
            next_identity: s.next_identity + 1,
            seen: seen2,
        }
    }
}

/// The receive state after a whole run of chunks.
pub open spec fn apply_chunks(s: RecvState, cs: Seq<(usize, u32, Seq<FieldValView>)>) -> RecvState
    decreases cs.len(),
{
    if cs.len() == 0 {
        s
    } else {
        apply_chunks(apply_chunk(s, cs[0]), cs.skip(1))
    }
}

/// The destroy sweep: every identifier known before the cycle but absent
/// from it loses both directions of its table entry; everything seen this
/// cycle survives.
pub open spec fn remove_absent(ctx: LinkView, prev: Seq<usize>, seen: Seq<usize>) -> LinkView
    decreases prev.len(),
{
    if prev.len() == 0 {
        ctx
    } else {
        let id = prev[0];
        let c2 = if !seen.contains(id) && ctx.rev.contains_key(id) {
            LinkView {
                next_id: ctx.next_id,
                fwd: ctx.fwd.remove(ctx.rev[id].id),
                rev: ctx.rev.remove(id),
            }
        } else {
            ctx
        };
        remove_absent(c2, prev.skip(1), seen)
    }
}

/// Performs per-cycle snapshot serialization and reconstruction with
/// destroy detection: which identifiers the peer already knows about as
/// of the last cycle, replaced wholesale after each receive pass.
#[derive(Debug)]
pub struct ReplicationManager {
    objects_to_me: Vec<usize>,
}

impl View for ReplicationManager {
    type V = Seq<usize>;

    closed spec fn view(&self) -> Seq<usize> {
        self.objects_to_me@
    }
}

/// A list of identifiers with no repeats.
pub open spec fn no_dups(s: Seq<usize>) -> bool {
    forall|i: int, j: int| 0 <= i < j < s.len() ==> s[i] != s[j]
}

impl ReplicationManager {
    /// The known-identifier set holds each identifier once.
    pub open spec fn wf(&self) -> bool {
        no_dups(self@)
    }

    /// A manager with an empty known-identifier set.
    pub fn new() -> (r: Self)
        ensures
            r.wf(),
            r@ == Seq::<usize>::empty(),
    {
        Self { objects_to_me: Vec::new() }
    }

    /// Writes one object's chunk: its assigned identifier, its class tag,
    /// and its reflected fields.  The identifier must already have been
    /// minted; the snapshot path never mints.
    fn replicate_into_stream(
        &self,
        stream: &mut OutputMemoryStream,
        ctx: &mut LinkingContext,
        go: &NetObject,
    ) -> (r: Result<(), GameIoError>)
        requires
            old(stream).wf(),
            old(ctx).wf(),
            old(ctx)@.fwd.contains_key(go@.id),
            old(stream).bits().len() + enc_chunk(
                old(ctx)@.fwd[go@.id],
                go@.class_id,
                go@.fields,
            ).len() <= usize::MAX - 7,
        ensures
            final(stream).wf(),
            final(ctx).wf(),
            final(ctx)@ == old(ctx)@,
            r == Ok::<(), GameIoError>(()),
            final(stream).bits() == old(stream).bits() + enc_chunk(
                old(ctx)@.fwd[go@.id],
                go@.class_id,
                go@.fields,
            ),
    {
        let id = match ctx.get_network_id(go, false) {
            Some(id) => id,
            None => {
                proof {
                    assert(false);
                }
                0
            },
        };
        stream.write_usize(id)?;
        stream.write_u32(go.class_id)?;
        stream.write_field_values(&go.fields)?;
        proof {
            assert(old(stream).bits() + enc_word(id) + to_bits(go@.class_id as u64, 32)
                + enc_fields(go@.fields) =~= old(stream).bits() + enc_chunk(
                id,
                go@.class_id,
                go@.fields,
            ));
        }
        Ok(())
    }

    /// Reads one object chunk and folds it into the table: a known
    /// identifier gets its stored fields replaced, an unknown one gets a
    /// freshly manufactured default instance registered under it.
    /// Answers with the identifier the chunk carried.
    fn recv_replicated_object(
        &self,
        input: &mut InputMemoryStream,
        ctx: &mut LinkingContext,
        registry: &mut ObjectRegistry,
    ) -> (r: Result<usize, GameIoError>)
        requires
            old(input).wf(),
            old(ctx).wf(),
            old(registry).wf(),
            forall|ident: usize| #[trigger]
                old(ctx)@.fwd.contains_key(ident) ==> (ident as nat) < old(registry)@.next_identity,
            old(registry)@.next_identity < usize::MAX as nat,
        ensures
            final(input).wf(),
            final(ctx).wf(),
            final(registry).wf(),
            final(input).data() == old(input).data(),
            final(registry)@.classes == old(registry)@.classes,
            forall|ident: usize| #[trigger]
                final(ctx)@.fwd.contains_key(ident) ==> (ident as nat) < final(registry)@.next_identity,
            match dec_chunk(old(input).data(), old(input).cursor(), old(registry)@.classes) {
                Some((c, h)) => {
                    let s1 = apply_chunk(
                        RecvState {
                            ctx: old(ctx)@,
                            next_identity: old(registry)@.next_identity,
                            seen: Seq::<usize>::empty(),
                        },
                        c,
                    );
                    &&& r == Ok::<usize, GameIoError>(c.0)
                    &&& final(input).cursor() == h
                    &&& final(ctx)@ == s1.ctx
                    &&& final(registry)@.next_identity == s1.next_identity
                },
                None => {
                    &&& r is Err
                    &&& (r matches Err(GameIoError::UnexpectedEof(_, _)) || r == Err::<
                        usize,
                        GameIoError,
                    >(GameIoError::Utf8Error) || r matches Err(GameIoError::UnknownClassId(_)))
                    &&& final(ctx)@ == old(ctx)@
                    &&& final(registry)@.next_identity == old(registry)@.next_identity
                },
            },
    {
        let id = input.read_usize()?;
        let class = input.read_u32()?;
        let fields = {
            let layout = match registry.get_layout(class) {
                Some(l) => l,
                None => {
                    return Err(GameIoError::UnknownClassId(class));
                },
            };
            input.read_reflected(layout)?
        };
        let known = ctx.get_game_object(id).is_some();
        if known {
            ctx.update_fields(id, fields);
        } else {
            let mut o = match registry.create_game_object(class) {
                Some(o) => o,
                None => {
                    proof {
                        assert(false);
                    }
                    return Err(GameIoError::UnknownClassId(class));
                },
            };
            o.fields = fields;
            ctx.insert_game_object(o, id);
        }
        Ok(id)
    }

    /// Reads object chunks until the buffer runs out, registering first
    /// contacts through the registry, then removes every identifier known
    /// from the previous cycle but absent from this one, and finally
    /// replaces the known set with this cycle's.
    pub fn recv_replicated_objects(
        &mut self,
        input: &mut InputMemoryStream,
        ctx: &mut LinkingContext,
        registry: &mut ObjectRegistry,
    ) -> (r: Result<(), GameIoError>)
        requires
            old(self).wf(),
            old(input).wf(),
            old(ctx).wf(),
            old(registry).wf(),
            forall|ident: usize| #[trigger]
                old(ctx)@.fwd.contains_key(ident) ==> (ident as nat) < old(registry)@.next_identity,
            old(registry)@.next_identity + (old(input).data().len() - old(input).cursor())
                <= usize::MAX as nat,
        ensures
            final(self).wf(),
            final(input).wf(),
            final(ctx).wf(),
            final(registry).wf(),
            final(input).data() == old(input).data(),
            final(registry)@.classes == old(registry)@.classes,
            forall|ident: usize| #[trigger]
                final(ctx)@.fwd.contains_key(ident) ==> (ident as nat) < final(registry)@.next_identity,
            match dec_chunks(old(input).data(), old(input).cursor(), old(registry)@.classes) {
                Some(chunks) => {
                    let s1 = apply_chunks(
                        RecvState {
                            ctx: old(ctx)@,
                            next_identity: old(registry)@.next_identity,
                            seen: Seq::<usize>::empty(),
                        },
                        chunks,
                    );
                    &&& r == Ok::<(), GameIoError>(())
                    &&& final(self)@ == s1.seen
                    &&& final(ctx)@ == remove_absent(s1.ctx, old(self)@, s1.seen)
                    &&& final(registry)@.next_identity == s1.next_identity
                    &&& final(input).cursor() == final(input).data().len()
                },
                None => {
                    &&& r is Err
                    &&& (r matches Err(GameIoError::UnexpectedEof(_, _)) || r == Err::<
                        (),
                        GameIoError,
                    >(GameIoError::Utf8Error) || r matches Err(GameIoError::UnknownClassId(_)))
                    &&& final(self)@ == old(self)@
                },
            },
    {
        let ghost data = input.data();
        let ghost start = input.cursor();
        let ghost classes = registry@.classes;
        let ghost s0 = RecvState {
            ctx: old(ctx)@,
            next_identity: old(registry)@.next_identity,
            seen: Seq::<usize>::empty(),
        };
        let mut seen: Vec<usize> = Vec::new();
        let ghost mut done: Seq<(usize, u32, Seq<FieldValView>)> = Seq::empty();
        proof {
            input.lemma_data_bound();
            assert(apply_chunks(s0, done) == s0);
        }
        while input.remaining_bit_count() > 0
            invariant
                self.wf(),
                self@ == old(self)@,
                input.wf(),
                ctx.wf(),
                registry.wf(),
                input.data() == data,
                data == old(input).data(),
                start == old(input).cursor(),
                start <= input.cursor() <= data.len(),
                classes == old(registry)@.classes,
                registry@.classes == classes,
                s0 == (RecvState {
                    ctx: old(ctx)@,
                    next_identity: old(registry)@.next_identity,
                    seen: Seq::<usize>::empty(),
                }),
                forall|ident: usize| #[trigger]
                    ctx@.fwd.contains_key(ident) ==> (ident as nat) < registry@.next_identity,
                registry@.next_identity + (data.len() - input.cursor()) <= usize::MAX as nat,
                no_dups(seen@),
                ({
                    let s = apply_chunks(s0, done);
                    s.ctx == ctx@ && s.next_identity == registry@.next_identity && s.seen == seen@
                }),
                dec_chunks(data, start, classes) == (match dec_chunks(
                    data,
                    input.cursor(),
                    classes,
                ) {
                    Some(rest) => Some(done + rest),
                    None => None::<Seq<(usize, u32, Seq<FieldValView>)>>,
                }),
            decreases data.len() - input.cursor(),
        {
            let ghost cur = input.cursor();
            let ghost done_pre = done;
            let id = match self.recv_replicated_object(input, ctx, registry) {
                Ok(id) => id,
                Err(e) => {
                    proof {
                        assert(dec_chunks(data, cur, classes) is None);
                    }
                    return Err(e);
                },
            };
            proof {
                let (c, h) = dec_chunk(data, cur, classes)->0;
                lemma_dec_chunk_range(data, cur, classes);
                done = done.push(c);
                lemma_apply_chunks_snoc(s0, done_pre, c);
                assert(dec_chunks(data, cur, classes) == (match dec_chunks(data, h, classes) {
                    Some(rest) => Some(seq![c] + rest),
                    None => None::<Seq<(usize, u32, Seq<FieldValView>)>>,
                }));
                assert forall|rest: Seq<(usize, u32, Seq<FieldValView>)>|
                    true implies done_pre + (seq![c] + rest) == done + rest by {
                    assert(done_pre + (seq![c] + rest) =~= done + rest);
                }
            }
            if !contains_id(&seen, id) {
                seen.push(id);
            }
        }
        proof {
            self.lemma_cursor_end(input, data);
            assert(dec_chunks(data, input.cursor(), classes) == Some(
                Seq::<(usize, u32, Seq<FieldValView>)>::empty(),
            ));
            assert(done + Seq::<(usize, u32, Seq<FieldValView>)>::empty() =~= done);
        }
        let ghost s1 = apply_chunks(s0, done);
        let ghost prev = self.objects_to_me@;
        let mut k: usize = 0;
        proof {
            assert(prev.skip(0) =~= prev);
        }
        while k < self.objects_to_me.len()
            invariant
                ctx.wf(),
                registry.wf(),
                k <= prev.len(),
                self.objects_to_me@ == prev,
                seen@ == s1.seen,
                registry@.classes == classes,
                forall|ident: usize| #[trigger]
                    ctx@.fwd.contains_key(ident) ==> (ident as nat) < registry@.next_identity,
                remove_absent(s1.ctx, prev, s1.seen) == remove_absent(
                    ctx@,
                    prev.skip(k as int),
                    s1.seen,
                ),
            decreases prev.len() - k,
        {
            let id = self.objects_to_me[k];
            proof {
                assert(prev.skip(k as int)[0] == prev[k as int]);
                assert(prev.skip(k as int).skip(1) =~= prev.skip(k as int + 1));
            }
            if !contains_id(&seen, id) {
                let present = ctx.get_game_object(id).is_some();
                if present {
                    ctx.remove_network_id(id);
                }
            }
            k = k + 1;
        }
        self.objects_to_me = seen;
        Ok(())
    }

    /// Emits an explicit create header for one object.  The object's
    /// identifier must already have been minted by a registration step.
    pub fn replicate_create(
        &mut self,
        stream: &mut OutputMemoryStream,
        ctx: &mut LinkingContext,
        go: &NetObject,
    ) -> (r: Result<(), GameIoError>)
        requires
            old(stream).wf(),
            old(ctx).wf(),
            old(ctx)@.fwd.contains_key(go@.id),
            old(stream).bits().len() + 8 + usize::BITS + 32 <= usize::MAX - 7,
        ensures
            final(stream).wf(),
            final(ctx).wf(),
            final(ctx)@ == old(ctx)@,
            *final(self) == *old(self),
            r == Ok::<(), GameIoError>(()),
            final(stream).bits() == old(stream).bits() + enc_header(
                ReplicationHeader {
                    action: ReplicationAction::Create,
                    network_id: old(ctx)@.fwd[go@.id],
                    class_id: go@.class_id,
                },
            ),
    {
        self.emit_header(stream, ctx, go, ReplicationAction::Create)
    }

    /// Emits an explicit update header for one object.  The object's
    /// identifier must already have been minted by a registration step.
    pub fn replicate_update(
        &mut self,
        stream: &mut OutputMemoryStream,
        ctx: &mut LinkingContext,
        go: &NetObject,
    ) -> (r: Result<(), GameIoError>)
        requires
            old(stream).wf(),
            old(ctx).wf(),
            old(ctx)@.fwd.contains_key(go@.id),
            old(stream).bits().len() + 8 + usize::BITS + 32 <= usize::MAX - 7,
        ensures
            final(stream).wf(),
            final(ctx).wf(),
            final(ctx)@ == old(ctx)@,
            *final(self) == *old(self),
            r == Ok::<(), GameIoError>(()),
            final(stream).bits() == old(stream).bits() + enc_header(
                ReplicationHeader {
                    action: ReplicationAction::Update,
                    network_id: old(ctx)@.fwd[go@.id],
                    class_id: go@.class_id,
                },
            ),
    {
        self.emit_header(stream, ctx, go, ReplicationAction::Update)
    }

    /// Emits an explicit destroy header for one object.  The object's
    /// identifier must still be registered when the header is written.
    pub fn replicate_destroy(
        &mut self,
        stream: &mut OutputMemoryStream,
        ctx: &mut LinkingContext,
        go: &NetObject,
    ) -> (r: Result<(), GameIoError>)
        requires
            old(stream).wf(),
            old(ctx).wf(),
            old(ctx)@.fwd.contains_key(go@.id),
            old(stream).bits().len() + 8 + usize::BITS + 32 <= usize::MAX - 7,
        ensures
            final(stream).wf(),
            final(ctx).wf(),
            final(ctx)@ == old(ctx)@,
            *final(self) == *old(self),
            r == Ok::<(), GameIoError>(()),
            final(stream).bits() == old(stream).bits() + enc_header(
                ReplicationHeader {
                    action: ReplicationAction::Destroy,
                    network_id: old(ctx)@.fwd[go@.id],
                    class_id: go@.class_id,
                },
            ),
    {
        self.emit_header(stream, ctx, go, ReplicationAction::Destroy)
    }

    /// Writes one header on the action-based path: the action, the
    /// object's minted identifier, its class tag.
    fn emit_header(
        &mut self,
        stream: &mut OutputMemoryStream,
        ctx: &mut LinkingContext,
        go: &NetObject,
        action: ReplicationAction,
    ) -> (r: Result<(), GameIoError>)
        requires
            old(stream).wf(),
            old(ctx).wf(),
            old(ctx)@.fwd.contains_key(go@.id),
            old(stream).bits().len() + 8 + usize::BITS + 32 <= usize::MAX - 7,
        ensures
            final(stream).wf(),
            final(ctx).wf(),
            final(ctx)@ == old(ctx)@,
            *final(self) == *old(self),
            r == Ok::<(), GameIoError>(()),
            final(stream).bits() == old(stream).bits() + enc_header(
                ReplicationHeader {
                    action,
                    network_id: old(ctx)@.fwd[go@.id],
                    class_id: go@.class_id,
                },
            ),
    {
        let network_id = match ctx.get_network_id(go, false) {
            Some(id) => id,
            None => {
                proof {
                    assert(false);
                }
                0
            },
        };
        let header = ReplicationHeader { action, network_id, class_id: go.class_id };
        header.write_byte(stream)
    }

    /// Reads one header from the action-based path and carries out the
    /// explicit destroy it may announce: a destroy header removes its
    /// identifier's table entry when one exists.  Create and update
    /// headers are handed back to the caller, who decides what follows.
    pub fn process_replication_action(
        &mut self,
        stream: &mut InputMemoryStream,
        ctx: &mut LinkingContext,
    ) -> (r: Result<ReplicationHeader, GameIoError>)
        requires
            old(stream).wf(),
            old(ctx).wf(),
        ensures
            final(stream).wf(),
            final(ctx).wf(),
            final(stream).data() == old(stream).data(),
            *final(self) == *old(self),
            match dec_header_raw(old(stream).data(), old(stream).cursor()) {
                Some((t, id, class, h)) => {
                    match ReplicationAction::spec_from_tag(t) {
                        Some(action) => {
                            &&& r == Ok::<ReplicationHeader, GameIoError>(
                                ReplicationHeader { action, network_id: id, class_id: class },
                            )
                            &&& final(stream).cursor() == h
                            &&& final(ctx)@ == (if action is Destroy && old(
                                ctx,
                            )@.rev.contains_key(id) {
                                LinkView {
                                    next_id: old(ctx)@.next_id,
                                    fwd: old(ctx)@.fwd.remove(old(ctx)@.rev[id].id),
                                    rev: old(ctx)@.rev.remove(id),
                                }
                            } else {
                                old(ctx)@
                            })
                        },
                        None => r == Err::<ReplicationHeader, GameIoError>(
                            GameIoError::InvalidAction(t),
                        ) && final(ctx)@ == old(ctx)@,
                    }
                },
                None => r matches Err(GameIoError::UnexpectedEof(_, _)) && final(ctx)@ == old(
                    ctx,
                )@,
            },
    {
        let header = ReplicationHeader::read_byte(stream)?;
        match header.action {
            ReplicationAction::Destroy => {
                let present = ctx.get_game_object(header.network_id).is_some();
                if present {
                    ctx.remove_network_id(header.network_id);
                }
            },
            _ => {},
        }
        Ok(header)
    }

    /// The cursor sits at the end exactly when no bits remain.
    proof fn lemma_cursor_end(&self, input: &InputMemoryStream, data: Seq<bool>)
        requires
            input.wf(),
            input.data() == data,
            input.data().len() - input.cursor() <= 0,
        ensures
            input.cursor() == data.len(),
    {
        input.lemma_data_bound();
    }

    /// Serializes the whole live set: the snapshot packet tag, then one
    /// chunk per object in the order given.  Every object must already
    /// carry a minted identifier.
    pub fn replicate_world_state(
        &self,
        stream: &mut OutputMemoryStream,
        ctx: &mut LinkingContext,
        gos: &Vec<NetObject>,
    ) -> (r: Result<(), GameIoError>)
        requires
            old(stream).wf(),
            old(ctx).wf(),
            forall|i: int|
                0 <= i < gos@.len() ==> old(ctx)@.fwd.contains_key(
                    #[trigger] obj_views(gos@)[i].id,
                ),
            old(stream).bits().len() + 8 + enc_world(old(ctx)@.fwd, obj_views(gos@)).len()
                <= usize::MAX - 7,
        ensures
            final(stream).wf(),
            final(ctx).wf(),
            final(ctx)@ == old(ctx)@,
            r == Ok::<(), GameIoError>(()),
            final(stream).bits() == old(stream).bits() + to_bits(
                PacketType::ReplicationData.spec_tag() as u64,
                8,
            ) + enc_world(old(ctx)@.fwd, obj_views(gos@)),
    {
        let ghost views = obj_views(gos@);
        stream.write_u8(PacketType::ReplicationData.tag())?;
        let ghost mid = stream.bits();
        let mut i: usize = 0;
        proof {
            assert(enc_world(old(ctx)@.fwd, views.take(0)) =~= Seq::<bool>::empty());
            assert(stream.bits() + enc_world(old(ctx)@.fwd, views.take(0)) =~= stream.bits());
        }
        while i < gos.len()
            invariant
                stream.wf(),
                ctx.wf(),
                ctx@ == old(ctx)@,
                i <= gos@.len(),
                views == obj_views(gos@),
                forall|k: int|
                    0 <= k < gos@.len() ==> old(ctx)@.fwd.contains_key(#[trigger] views[k].id),
                mid == old(stream).bits() + to_bits(
                    PacketType::ReplicationData.spec_tag() as u64,
                    8,
                ),
                mid.len() + enc_world(old(ctx)@.fwd, views).len() <= usize::MAX - 7,
                stream.bits() == mid + enc_world(old(ctx)@.fwd, views.take(i as int)),
            decreases gos@.len() - i,
        {
            proof {
                lemma_enc_world_snoc(old(ctx)@.fwd, views, i as int);
                lemma_enc_world_len_monotone(old(ctx)@.fwd, views, i as int);
            }
            self.replicate_into_stream(stream, ctx, &gos[i])?;
            proof {
                assert(mid + enc_world(old(ctx)@.fwd, views.take(i as int)) + enc_chunk(
                    old(ctx)@.fwd[views[i as int].id],
                    views[i as int].class_id,
                    views[i as int].fields,
                ) =~= mid + enc_world(old(ctx)@.fwd, views.take(i as int + 1)));
            }
            i = i + 1;
        }
        proof {
            assert(views.take(gos@.len() as int) =~= views);
        }
        Ok(())
    }
}

} // verus!
