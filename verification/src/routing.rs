//! Spatial routing of the unresolved DEM-CFD seam: fixed-size little-endian
//! records for particle kinematics (DEM owner -> field owner) and for fluid
//! forces (field owner -> DEM owner), the envelope/payload identity checks on
//! delivery, and the deterministic per-particle grouping of returned force
//! contributions.
//!
//! Floating-point quantities travel as their IEEE-754 bit patterns: a value
//! `x` is carried as `x.to_bits()`, and `x.to_le_bytes()` is exactly the
//! little-endian encoding of that bit pattern, so the wire format is the one
//! of the `f64` fields themselves.

use vstd::prelude::*;
use vstd::bytes::{
    lemma_auto_spec_u32_to_from_le_bytes, lemma_auto_spec_u64_to_from_le_bytes,
    spec_u32_from_le_bytes, spec_u32_to_le_bytes, spec_u64_from_le_bytes, spec_u64_to_le_bytes,
    u32_from_le_bytes, u32_to_le_bytes, u64_from_le_bytes, u64_to_le_bytes,
};
use vstd::slice::slice_subrange;
use vstd::std_specs::cmp::OrdSpec;
use vstd::std_specs::iter::IteratorSpec;
use std::collections::BTreeMap;

verus! {

/// Byte length of one routed particle record.
pub const PARTICLE_BYTES: usize = 8 + 4 + 3 * 8 + 3 * 8 + 8 + 3 * 8;

/// Byte length of one routed force record.
pub const FORCE_BYTES: usize = 8 + 4 + 3 * 8;

/// Particle state required by the unresolved DEM-CFD spatial seam. Vector and
/// scalar quantities are the bit patterns of their `f64` values.
#[derive(Debug, Clone, Copy, PartialEq, Eq)]
pub struct RoutedParticle {
    /// Stable particle ID across migration and repartitioning.
    pub id: u64,
    /// Current owner within the DEM role communicator.
    pub dem_owner: i32,
    /// Particle center in world coordinates.
    pub center: [u64; 3],
    /// Particle velocity in world coordinates.
    pub velocity: [u64; 3],
    /// Physical particle radius.
    pub radius: u64,
    /// Fluid force the particle carried out of the previous coupling step; it
    /// travels with the particle so that a receiving field owner can form the
    /// trapezoidal momentum-sink reaction even for a freshly migrated particle.
    pub prev_force: [u64; 3],
}

/// Force result returned by a field owner to the particle's DEM owner.
#[derive(Debug, Clone, Copy, PartialEq, Eq)]
pub struct RoutedForce {
    /// Stable particle ID.
    pub id: u64,
    /// DEM role-rank that owns the particle.
    pub dem_owner: i32,
    /// Total fluid force on the particle (bit patterns).
    pub force: [u64; 3],
}

/// Invalid coupling-owned particle route or payload.
#[derive(Debug, Clone, Copy, PartialEq, Eq)]
pub enum ParticleRoutingError {
    /// Particle center has no field owner.
    OutsideFieldDomain {
        /// Particle ID.
        id: u64,
        /// Rejected center (bit patterns).
        center: [u64; 3],
    },
    /// Envelope and payload did not describe the same entity.
    EntityIdMismatch {
        /// Envelope ID.
        envelope: u64,
        /// Payload ID.
        payload: u64,
    },
    /// Fixed-size coupling payload was truncated or extended.
    MalformedPayload {
        /// Required byte length.
        expected: usize,
        /// Received byte length.
        actual: usize,
    },
}

// ---------------------------------------------------------------------------
// Wire format
// ---------------------------------------------------------------------------

/// Little-endian bytes of a `u64`.
pub open spec fn le_u64(x: u64) -> Seq<u8> {
    spec_u64_to_le_bytes(x)
}

/// Little-endian bytes of an `i32` (its two's-complement bit pattern).
pub open spec fn le_i32(x: i32) -> Seq<u8> {
    spec_u32_to_le_bytes(x as u32)
}

/// Little-endian bytes of three `u64`s, in order.
pub open spec fn le_triple(v: [u64; 3]) -> Seq<u8> {
    le_u64(v[0]) + le_u64(v[1]) + le_u64(v[2])
}

/// The record of a particle: id, DEM owner, center, velocity, radius and
/// previous force, each little-endian, back to back.
pub open spec fn particle_wire(p: RoutedParticle) -> Seq<u8> {
    le_u64(p.id) + le_i32(p.dem_owner) + le_triple(p.center) + le_triple(p.velocity) + le_u64(
        p.radius,
    ) + le_triple(p.prev_force)
}

/// The record of a force: id, DEM owner and force, each little-endian.
pub open spec fn force_wire(f: RoutedForce) -> Seq<u8> {
    le_u64(f.id) + le_i32(f.dem_owner) + le_triple(f.force)
}

/// The `u64` stored little-endian at byte offset `at`.
pub open spec fn u64_at(b: Seq<u8>, at: int) -> u64 {
    spec_u64_from_le_bytes(b.subrange(at, at + 8))
}

/// The `i32` stored little-endian at byte offset `at`.
pub open spec fn i32_at(b: Seq<u8>, at: int) -> i32 {
    spec_u32_from_le_bytes(b.subrange(at, at + 4)) as i32
}

/// The three `u64`s stored back to back from byte offset `at`.
pub open spec fn triple_at(b: Seq<u8>, at: int) -> [u64; 3] {
    [u64_at(b, at), u64_at(b, at + 8), u64_at(b, at + 16)]
}

/// The particle that a full-length record describes.
pub open spec fn particle_at(b: Seq<u8>) -> RoutedParticle {
    RoutedParticle {
        id: u64_at(b, 0),
        dem_owner: i32_at(b, 8),
        center: triple_at(b, 12),
        velocity: triple_at(b, 36),
        radius: u64_at(b, 60),
        prev_force: triple_at(b, 68),
    }
}

/// The force that a full-length record describes.
pub open spec fn force_at(b: Seq<u8>) -> RoutedForce {
    RoutedForce { id: u64_at(b, 0), dem_owner: i32_at(b, 8), force: triple_at(b, 12) }
}

/// Decoding a particle record: a record of any length but
/// [`PARTICLE_BYTES`] is malformed.
pub open spec fn decoded_particle(b: Seq<u8>) -> Result<RoutedParticle, ParticleRoutingError> {
    if b.len() != PARTICLE_BYTES {
        Err(ParticleRoutingError::MalformedPayload { expected: PARTICLE_BYTES, actual: b.len() as usize })
    } else {
        Ok(particle_at(b))
    }
}

/// Decoding a force record: a record of any length but [`FORCE_BYTES`] is
/// malformed.
pub open spec fn decoded_force(b: Seq<u8>) -> Result<RoutedForce, ParticleRoutingError> {
    if b.len() != FORCE_BYTES {
        Err(ParticleRoutingError::MalformedPayload { expected: FORCE_BYTES, actual: b.len() as usize })
    } else {
        Ok(force_at(b))
    }
}

fn append_u64(bytes: &mut Vec<u8>, x: u64)
    ensures
        final(bytes)@ == old(bytes)@ + le_u64(x),
{
    let mut tail = u64_to_le_bytes(x);
    bytes.append(&mut tail);
}

fn append_i32(bytes: &mut Vec<u8>, x: i32)
    ensures
        final(bytes)@ == old(bytes)@ + le_i32(x),
{
    let mut tail = u32_to_le_bytes(x as u32);
    bytes.append(&mut tail);
}

fn append_triple(bytes: &mut Vec<u8>, v: [u64; 3])
    ensures
        final(bytes)@ == old(bytes)@ + le_triple(v),
{
    let ghost start = bytes@;
    append_u64(bytes, v[0]);
    append_u64(bytes, v[1]);
    append_u64(bytes, v[2]);
    assert(bytes@ =~= start + le_triple(v));
}

/// Read a little-endian `u64` at the cursor and advance it.
pub fn read_u64(bytes: &[u8], cursor: &mut usize) -> (value: u64)
    requires
        *old(cursor) + 8 <= bytes@.len(),
    ensures
        value == u64_at(bytes@, *old(cursor) as int),
        *final(cursor) == *old(cursor) + 8,
{
    let len = bytes.len();
    assert(*cursor + 8 <= len);
    let value = u64_from_le_bytes(slice_subrange(bytes, *cursor, *cursor + 8));
    *cursor = *cursor + 8;
    value
}

/// Read a little-endian `i32` at the cursor and advance it.
pub fn read_i32(bytes: &[u8], cursor: &mut usize) -> (value: i32)
    requires
        *old(cursor) + 4 <= bytes@.len(),
    ensures
        value == i32_at(bytes@, *old(cursor) as int),
        *final(cursor) == *old(cursor) + 4,
{
    let len = bytes.len();
    assert(*cursor + 4 <= len);
    let value = u32_from_le_bytes(slice_subrange(bytes, *cursor, *cursor + 4)) as i32;
    *cursor = *cursor + 4;
    value
}

fn read_triple(bytes: &[u8], cursor: &mut usize) -> (value: [u64; 3])
    requires
        *old(cursor) + 24 <= bytes@.len(),
    ensures
        value == triple_at(bytes@, *old(cursor) as int),
        *final(cursor) == *old(cursor) + 24,
{
    let x = read_u64(bytes, cursor);
    let y = read_u64(bytes, cursor);
    let z = read_u64(bytes, cursor);
    [x, y, z]
}

/// Encode a particle as its fixed-size record.
pub fn encode_particle(particle: RoutedParticle) -> (bytes: Vec<u8>)
    ensures
        bytes@ == particle_wire(particle),
{
    let mut bytes = Vec::with_capacity(PARTICLE_BYTES);
    append_u64(&mut bytes, particle.id);
    append_i32(&mut bytes, particle.dem_owner);
    append_triple(&mut bytes, particle.center);
    append_triple(&mut bytes, particle.velocity);
    append_u64(&mut bytes, particle.radius);
    append_triple(&mut bytes, particle.prev_force);
    bytes
}

/// Decode one particle record.
pub fn decode_particle(bytes: &[u8]) -> (out: Result<RoutedParticle, ParticleRoutingError>)
    ensures
        out == decoded_particle(bytes@),
        out is Ok <==> bytes@.len() == PARTICLE_BYTES,
        bytes@.len() != PARTICLE_BYTES ==> out == Err::<RoutedParticle, ParticleRoutingError>(
            ParticleRoutingError::MalformedPayload { expected: PARTICLE_BYTES, actual: bytes@.len() as usize },
        ),
        out matches Ok(p) ==> bytes@ == particle_wire(p),
{
    proof {
        lemma_particle_decode_accepts_records_only(bytes@);
    }
    if bytes.len() != PARTICLE_BYTES {
        return Err(
            ParticleRoutingError::MalformedPayload { expected: PARTICLE_BYTES, actual: bytes.len() },
        );
    }
    let mut cursor: usize = 0;
    let id = read_u64(bytes, &mut cursor);
    let dem_owner = read_i32(bytes, &mut cursor);
    let center = read_triple(bytes, &mut cursor);
    let velocity = read_triple(bytes, &mut cursor);
    let radius = read_u64(bytes, &mut cursor);
    let prev_force = read_triple(bytes, &mut cursor);
    Ok(RoutedParticle { id, dem_owner, center, velocity, radius, prev_force })
}

/// Encode a force as its fixed-size record.
pub fn encode_force(force: RoutedForce) -> (bytes: Vec<u8>)
    ensures
        bytes@ == force_wire(force),
{
    let mut bytes = Vec::with_capacity(FORCE_BYTES);
    append_u64(&mut bytes, force.id);
    append_i32(&mut bytes, force.dem_owner);
    append_triple(&mut bytes, force.force);
    bytes
}

/// Decode one force record.
pub fn decode_force(bytes: &[u8]) -> (out: Result<RoutedForce, ParticleRoutingError>)
    ensures
        out == decoded_force(bytes@),
        out is Ok <==> bytes@.len() == FORCE_BYTES,
        bytes@.len() != FORCE_BYTES ==> out == Err::<RoutedForce, ParticleRoutingError>(
            ParticleRoutingError::MalformedPayload { expected: FORCE_BYTES, actual: bytes@.len() as usize },
        ),
        out matches Ok(f) ==> bytes@ == force_wire(f),
{
    proof {
        lemma_force_decode_accepts_records_only(bytes@);
    }
    if bytes.len() != FORCE_BYTES {
        return Err(
            ParticleRoutingError::MalformedPayload { expected: FORCE_BYTES, actual: bytes.len() },
        );
    }
    let mut cursor: usize = 0;
    let id = read_u64(bytes, &mut cursor);
    let dem_owner = read_i32(bytes, &mut cursor);
    let force = read_triple(bytes, &mut cursor);
    Ok(RoutedForce { id, dem_owner, force })
}

// ---------------------------------------------------------------------------
// Laws of the wire format
// ---------------------------------------------------------------------------

proof fn lemma_i32_bits(x: i32)
    ensures
        (x as u32) as i32 == x,
{
    assert((x as u32) as i32 == x) by (bit_vector);
}

proof fn lemma_u32_bits(u: u32)
    ensures
        (u as i32) as u32 == u,
{
    assert((u as i32) as u32 == u) by (bit_vector);
}

proof fn lemma_triple_round_trip(v: [u64; 3], b: Seq<u8>, at: int)
    requires
        0 <= at,
        at + 24 <= b.len(),
        b.subrange(at, at + 24) == le_triple(v),
    ensures
        triple_at(b, at) == v,
{
    lemma_auto_spec_u64_to_from_le_bytes();
    broadcast use vstd::array::group_array_axioms;
    let t = le_triple(v);
    assert(b.subrange(at, at + 8) =~= t.subrange(0, 8));
    assert(b.subrange(at + 8, at + 16) =~= t.subrange(8, 16));
    assert(b.subrange(at + 16, at + 24) =~= t.subrange(16, 24));
    assert(t.subrange(0, 8) =~= le_u64(v[0]));
    assert(t.subrange(8, 16) =~= le_u64(v[1]));
    assert(t.subrange(16, 24) =~= le_u64(v[2]));
    assert(triple_at(b, at) =~= v);
}

proof fn lemma_triple_of_bytes(b: Seq<u8>, at: int)
    requires
        0 <= at,
        at + 24 <= b.len(),
    ensures
        le_triple(triple_at(b, at)) == b.subrange(at, at + 24),
{
    lemma_auto_spec_u64_to_from_le_bytes();
    let s0 = b.subrange(at, at + 8);
    let s1 = b.subrange(at + 8, at + 16);
    let s2 = b.subrange(at + 16, at + 24);
    assert(le_u64(spec_u64_from_le_bytes(s0)) == s0);
    assert(le_u64(spec_u64_from_le_bytes(s1)) == s1);
    assert(le_u64(spec_u64_from_le_bytes(s2)) == s2);
    assert(s0 + s1 + s2 =~= b.subrange(at, at + 24));
}

proof fn lemma_i32_of_bytes(b: Seq<u8>, at: int)
    requires
        0 <= at,
        at + 4 <= b.len(),
    ensures
        le_i32(i32_at(b, at)) == b.subrange(at, at + 4),
{
    lemma_auto_spec_u32_to_from_le_bytes();
    let s = b.subrange(at, at + 4);
    lemma_u32_bits(spec_u32_from_le_bytes(s));
    assert(spec_u32_to_le_bytes(spec_u32_from_le_bytes(s)) == s);
}

/// Every particle record is [`PARTICLE_BYTES`] long and decodes to the
/// particle it was made from.
pub proof fn lemma_particle_round_trip(p: RoutedParticle)
    ensures
        particle_wire(p).len() == PARTICLE_BYTES,
        decoded_particle(particle_wire(p)) == Ok::<RoutedParticle, ParticleRoutingError>(p),
{
    lemma_auto_spec_u64_to_from_le_bytes();
    lemma_auto_spec_u32_to_from_le_bytes();
    let b = particle_wire(p);
    assert(b.len() == PARTICLE_BYTES);
    assert(b.subrange(0, 8) =~= le_u64(p.id));
    assert(b.subrange(8, 12) =~= le_i32(p.dem_owner));
    lemma_i32_bits(p.dem_owner);
    assert(b.subrange(12, 36) =~= le_triple(p.center));
    lemma_triple_round_trip(p.center, b, 12);
    assert(b.subrange(36, 60) =~= le_triple(p.velocity));
    lemma_triple_round_trip(p.velocity, b, 36);
    assert(b.subrange(60, 68) =~= le_u64(p.radius));
    assert(b.subrange(68, 92) =~= le_triple(p.prev_force));
    lemma_triple_round_trip(p.prev_force, b, 68);
    assert(particle_at(b) == p);
}

/// Every record of [`PARTICLE_BYTES`] bytes is the record of the particle it
/// decodes to: the particle codec is a bijection between particles and
/// full-length records.
pub proof fn lemma_particle_record_is_canonical(b: Seq<u8>)
    requires
        b.len() == PARTICLE_BYTES,
    ensures
        particle_wire(particle_at(b)) == b,
{
    lemma_auto_spec_u64_to_from_le_bytes();
    let p = particle_at(b);
    assert(le_u64(p.id) == b.subrange(0, 8));
    lemma_i32_of_bytes(b, 8);
    lemma_triple_of_bytes(b, 12);
    lemma_triple_of_bytes(b, 36);
    assert(le_u64(p.radius) == b.subrange(60, 68));
    lemma_triple_of_bytes(b, 68);
    assert(particle_wire(p) =~= b);
}

/// Every force record is [`FORCE_BYTES`] long and decodes to the force it was
/// made from.
pub proof fn lemma_force_round_trip(f: RoutedForce)
    ensures
        force_wire(f).len() == FORCE_BYTES,
        decoded_force(force_wire(f)) == Ok::<RoutedForce, ParticleRoutingError>(f),
{
    lemma_auto_spec_u64_to_from_le_bytes();
    lemma_auto_spec_u32_to_from_le_bytes();
    let b = force_wire(f);
    assert(b.len() == FORCE_BYTES);
    assert(b.subrange(0, 8) =~= le_u64(f.id));
    assert(b.subrange(8, 12) =~= le_i32(f.dem_owner));
    lemma_i32_bits(f.dem_owner);
    assert(b.subrange(12, 36) =~= le_triple(f.force));
    lemma_triple_round_trip(f.force, b, 12);
    assert(force_at(b) == f);
}

/// Every record of [`FORCE_BYTES`] bytes is the record of the force it decodes
/// to.
pub proof fn lemma_force_record_is_canonical(b: Seq<u8>)
    requires
        b.len() == FORCE_BYTES,
    ensures
        force_wire(force_at(b)) == b,
{
    lemma_auto_spec_u64_to_from_le_bytes();
    let f = force_at(b);
    assert(le_u64(f.id) == b.subrange(0, 8));
    lemma_i32_of_bytes(b, 8);
    lemma_triple_of_bytes(b, 12);
    assert(force_wire(f) =~= b);
}

/// Particle decoding accepts exactly the records of particles: a byte string
/// decodes only when it is [`PARTICLE_BYTES`] long, and then it is the record
/// of the particle it decodes to, so no truncated or extended payload is ever
/// accepted; any other length is reported as malformed, with that length.
pub proof fn lemma_particle_decode_accepts_records_only(b: Seq<u8>)
    ensures
        decoded_particle(b) is Ok <==> b.len() == 92,
        decoded_particle(b) matches Ok(p) ==> b == particle_wire(p),
        b.len() != 92 ==> decoded_particle(b) == Err::<RoutedParticle, ParticleRoutingError>(
            ParticleRoutingError::MalformedPayload { expected: 92, actual: b.len() as usize },
        ),
{
    if b.len() == PARTICLE_BYTES {
        lemma_particle_record_is_canonical(b);
    }
}

/// Force decoding accepts exactly the records of forces: a byte string
/// decodes only when it is [`FORCE_BYTES`] long, and then it is the record of
/// the force it decodes to; any other length is reported as malformed, with
/// that length.
pub proof fn lemma_force_decode_accepts_records_only(b: Seq<u8>)
    ensures
        decoded_force(b) is Ok <==> b.len() == 36,
        decoded_force(b) matches Ok(f) ==> b == force_wire(f),
        b.len() != 36 ==> decoded_force(b) == Err::<RoutedForce, ParticleRoutingError>(
            ParticleRoutingError::MalformedPayload { expected: 36, actual: b.len() as usize },
        ),
{
    if b.len() == FORCE_BYTES {
        lemma_force_record_is_canonical(b);
    }
}

// ---------------------------------------------------------------------------
// Routes and deliveries
// ---------------------------------------------------------------------------

/// One opaque record addressed to a rank of the peer solver role.
#[derive(Debug, Clone, PartialEq, Eq)]
pub struct RoutedRecord {
    /// Rank within the peer role.
    pub destination: i32,
    /// Stable entity identifier of the envelope.
    pub entity_id: u64,
    /// Coupling-owned bytes.
    pub payload: Vec<u8>,
}

/// One opaque record delivered from a rank of the peer solver role.
#[derive(Debug, Clone, PartialEq, Eq)]
pub struct ReceivedRecord {
    /// Rank within the peer role that produced the record.
    pub source: i32,
    /// Stable entity identifier of the envelope.
    pub entity_id: u64,
    /// Coupling-owned bytes.
    pub payload: Vec<u8>,
}

/// What a delivered particle record yields: the decoded particle, unless the
/// payload is malformed or names another entity than its envelope.
pub open spec fn received_particle(r: ReceivedRecord) -> Result<RoutedParticle, ParticleRoutingError> {
    match decoded_particle(r.payload@) {
        Err(e) => Err(e),
        Ok(p) => if p.id == r.entity_id {
            Ok(p)
        } else {
            Err(ParticleRoutingError::EntityIdMismatch { envelope: r.entity_id, payload: p.id })
        },
    }
}

/// What a delivered force record yields: the decoded force, unless the
/// payload is malformed or names another entity than its envelope.
pub open spec fn received_force(r: ReceivedRecord) -> Result<RoutedForce, ParticleRoutingError> {
    match decoded_force(r.payload@) {
        Err(e) => Err(e),
        Ok(f) => if f.id == r.entity_id {
            Ok(f)
        } else {
            Err(ParticleRoutingError::EntityIdMismatch { envelope: r.entity_id, payload: f.id })
        },
    }
}

/// A delivered particle record is accepted exactly when its payload is the
/// record of a particle that the envelope names: an accepted record yields a
/// particle whose ID is the envelope's entity and whose record is the
/// payload; the record of particle `p` under an envelope naming another
/// entity is refused as a mismatch between the two.
pub proof fn lemma_received_particle_names_envelope(r: ReceivedRecord, p: RoutedParticle)
    ensures
        received_particle(r) matches Ok(q) ==> q.id == r.entity_id && r.payload@ == particle_wire(q),
        r.payload@ == particle_wire(p) ==> received_particle(r) == if p.id == r.entity_id {
            Ok::<RoutedParticle, ParticleRoutingError>(p)
        } else {
            Err(ParticleRoutingError::EntityIdMismatch { envelope: r.entity_id, payload: p.id })
        },
{
    lemma_particle_decode_accepts_records_only(r.payload@);
    lemma_particle_round_trip(p);
}

/// A delivered force record is accepted exactly when its payload is the
/// record of a force that the envelope names: an accepted record yields a
/// force whose ID is the envelope's entity and whose record is the payload;
/// the record of force `f` under an envelope naming another entity is refused
/// as a mismatch between the two.
pub proof fn lemma_received_force_names_envelope(r: ReceivedRecord, f: RoutedForce)
    ensures
        received_force(r) matches Ok(g) ==> g.id == r.entity_id && r.payload@ == force_wire(g),
        r.payload@ == force_wire(f) ==> received_force(r) == if f.id == r.entity_id {
            Ok::<RoutedForce, ParticleRoutingError>(f)
        } else {
            Err(ParticleRoutingError::EntityIdMismatch { envelope: r.entity_id, payload: f.id })
        },
{
    lemma_force_decode_accepts_records_only(r.payload@);
    lemma_force_round_trip(f);
}

/// The error that routing reports for a particle without a field owner.
pub open spec fn outside_error(p: RoutedParticle) -> ParticleRoutingError {
    ParticleRoutingError::OutsideFieldDomain { id: p.id, center: p.center }
}

/// `routes` sends each particle, in order, to its owner, under its ID, as its
/// record.
pub open spec fn routed_to_owners(
    owners: Seq<Option<i32>>,
    particles: Seq<RoutedParticle>,
    routes: Seq<RoutedRecord>,
) -> bool {
    &&& routes.len() == particles.len()
    &&& routes.len() == owners.len()
    &&& forall|i: int|
        0 <= i < routes.len() ==> {
            &&& owners[i] == Some(#[trigger] routes[i].destination)
            &&& routes[i].entity_id == particles[i].id
            &&& routes[i].payload@ == particle_wire(particles[i])
        }
}

/// Build containing-partition routes for particle kinematics. `owners[i]` is
/// the field rank whose partition contains the center of `particles[i]`, or
/// `None` when no partition does. Every particle is routed to its owner, in
/// order; the first particle without an owner fails the whole batch.
pub fn route_particles(owners: &[Option<i32>], particles: &[RoutedParticle]) -> (out: Result<
    Vec<RoutedRecord>,
    ParticleRoutingError,
>)
    requires
        owners@.len() == particles@.len(),
    ensures
        out is Ok <==> forall|i: int| 0 <= i < owners@.len() ==> #[trigger] owners@[i] is Some,
        out matches Ok(routes) ==> routed_to_owners(owners@, particles@, routes@),
        out matches Err(e) ==> exists|k: int|
            0 <= k < owners@.len() && #[trigger] owners@[k] is None && (forall|j: int|
                0 <= j < k ==> owners@[j] is Some) && e == outside_error(particles@[k]),
{
    let mut routes: Vec<RoutedRecord> = Vec::new();
    let n = particles.len();
    let mut i: usize = 0;
    while i < n
        invariant
            n == particles@.len(),
            owners@.len() == n,
            i <= n,
            forall|j: int| 0 <= j < i ==> owners@[j] is Some,
            routed_to_owners(owners@.take(i as int), particles@.take(i as int), routes@),
        decreases n - i,
    {
        let particle = particles[i];
        match owners[i] {
            None => {
                let e = ParticleRoutingError::OutsideFieldDomain { id: particle.id, center: particle.center };
                assert(owners@[i as int] is None);
                return Err(e);
            },
            Some(destination) => {
                let payload = encode_particle(particle);
                routes.push(RoutedRecord { destination, entity_id: particle.id, payload });
            },
        }
        i = i + 1;
    }
    assert(owners@.take(n as int) =~= owners@);
    assert(particles@.take(n as int) =~= particles@);
    Ok(routes)
}

/// Decode particle records delivered by the exchange, verifying that each
/// payload is well formed and names the entity of its envelope. The first
/// record that fails fails the whole batch.
pub fn decode_particles(incoming: &[ReceivedRecord]) -> (out: Result<
    Vec<RoutedParticle>,
    ParticleRoutingError,
>)
    ensures
        out is Ok <==> forall|i: int|
            0 <= i < incoming@.len() ==> #[trigger] received_particle(incoming@[i]) is Ok,
        out matches Ok(particles) ==> {
            &&& particles@.len() == incoming@.len()
            &&& forall|i: int|
                0 <= i < particles@.len() ==> received_particle(incoming@[i]) == Ok::<
                    RoutedParticle,
                    ParticleRoutingError,
                >(#[trigger] particles@[i])
        },
        out matches Err(e) ==> exists|k: int|
            0 <= k < incoming@.len() && (forall|j: int|
                0 <= j < k ==> #[trigger] received_particle(incoming@[j]) is Ok)
                && received_particle(incoming@[k]) == Err::<RoutedParticle, ParticleRoutingError>(
                e,
            ),
        out matches Ok(particles) ==> forall|i: int|
            0 <= i < particles@.len() ==> {
                &&& (#[trigger] particles@[i]).id == incoming@[i].entity_id
                &&& incoming@[i].payload@ == particle_wire(particles@[i])
            },
        forall|k: int, p: RoutedParticle|
            #![trigger incoming@[k], particle_wire(p)]
            0 <= k < incoming@.len() && (forall|j: int|
                0 <= j < k ==> #[trigger] received_particle(incoming@[j]) is Ok)
                && incoming@[k].payload@ == particle_wire(p) && p.id != incoming@[k].entity_id
                ==> out == Err::<Vec<RoutedParticle>, ParticleRoutingError>(
                ParticleRoutingError::EntityIdMismatch { envelope: incoming@[k].entity_id, payload: p.id },
            ),
{
    let mut particles: Vec<RoutedParticle> = Vec::new();
    let n = incoming.len();
    let mut i: usize = 0;
    while i < n
        invariant
            n == incoming@.len(),
            i <= n,
            particles@.len() == i,
            forall|j: int| 0 <= j < i ==> #[trigger] received_particle(incoming@[j]) is Ok,
            forall|j: int|
                0 <= j < i ==> received_particle(incoming@[j]) == Ok::<
                    RoutedParticle,
                    ParticleRoutingError,
                >(#[trigger] particles@[j]),
        decreases n - i,
    {
        let record = &incoming[i];
        let particle = match decode_particle(record.payload.as_slice()) {
            Ok(p) => p,
            Err(e) => {
                assert(received_particle(incoming@[i as int]) is Err);
                let out = Err(e);
                proof {
                    lemma_particle_batch_fails_first(incoming@, out);
                }
                return out;
            },
        };
        if particle.id != record.entity_id {
            assert(received_particle(incoming@[i as int]) is Err);
            let out = Err(
                ParticleRoutingError::EntityIdMismatch { envelope: record.entity_id, payload: particle.id },
            );
            proof {
                lemma_particle_batch_fails_first(incoming@, out);
            }
            return out;
        }
        assert(received_particle(incoming@[i as int]) == Ok::<RoutedParticle, ParticleRoutingError>(
            particle,
        ));
        particles.push(particle);
        i = i + 1;
    }
    assert forall|i: int| 0 <= i < particles@.len() implies {
        &&& (#[trigger] particles@[i]).id == incoming@[i].entity_id
        &&& incoming@[i].payload@ == particle_wire(particles@[i])
    } by {
        lemma_received_particle_names_envelope(incoming@[i], particles@[i]);
    }
    let out = Ok(particles);
    proof {
        lemma_particle_batch_fails_first(incoming@, out);
    }
    out
}

/// A batch of particle records that fails as its first refused record does
/// fails with a mismatch at the first record that carries another particle
/// than its envelope names.
proof fn lemma_particle_batch_fails_first(
    incoming: Seq<ReceivedRecord>,
    out: Result<Vec<RoutedParticle>, ParticleRoutingError>,
)
    requires
        out is Ok <==> forall|i: int|
            0 <= i < incoming.len() ==> #[trigger] received_particle(incoming[i]) is Ok,
        out matches Err(e) ==> exists|k: int|
            0 <= k < incoming.len() && (forall|j: int|
                0 <= j < k ==> #[trigger] received_particle(incoming[j]) is Ok)
                && received_particle(incoming[k]) == Err::<RoutedParticle, ParticleRoutingError>(
                e,
            ),
    ensures
        forall|k: int, p: RoutedParticle|
            #![trigger incoming[k], particle_wire(p)]
            0 <= k < incoming.len() && (forall|j: int|
                0 <= j < k ==> #[trigger] received_particle(incoming[j]) is Ok)
                && incoming[k].payload@ == particle_wire(p) && p.id != incoming[k].entity_id
                ==> out == Err::<Vec<RoutedParticle>, ParticleRoutingError>(
                ParticleRoutingError::EntityIdMismatch { envelope: incoming[k].entity_id, payload: p.id },
            ),
{
    assert forall|k: int, p: RoutedParticle|
        #![trigger incoming[k], particle_wire(p)]
        0 <= k < incoming.len() && (forall|j: int|
            0 <= j < k ==> #[trigger] received_particle(incoming[j]) is Ok)
            && incoming[k].payload@ == particle_wire(p) && p.id != incoming[k].entity_id
        implies out == Err::<Vec<RoutedParticle>, ParticleRoutingError>(
            ParticleRoutingError::EntityIdMismatch { envelope: incoming[k].entity_id, payload: p.id },
        ) by {
        lemma_received_particle_names_envelope(incoming[k], p);
        assert(received_particle(incoming[k]) is Err);
        let e = out->Err_0;
        let k2 = choose|k2: int|
            0 <= k2 < incoming.len() && (forall|j: int|
                0 <= j < k2 ==> #[trigger] received_particle(incoming[j]) is Ok)
                && received_particle(incoming[k2]) == Err::<RoutedParticle, ParticleRoutingError>(e);
        if k2 < k {
            assert(received_particle(incoming[k2]) is Ok);
        } else if k2 > k {
            assert(received_particle(incoming[k]) is Ok);
        }
    }
}

/// `routes` sends each force, in order, to the DEM owner of its particle,
/// under its ID, as its record.
pub open spec fn routed_to_dem_owners(forces: Seq<RoutedForce>, routes: Seq<RoutedRecord>) -> bool {
    &&& routes.len() == forces.len()
    &&& forall|i: int|
        0 <= i < routes.len() ==> {
            &&& #[trigger] routes[i].destination == forces[i].dem_owner
            &&& routes[i].entity_id == forces[i].id
            &&& routes[i].payload@ == force_wire(forces[i])
        }
}

/// Route force results back to the DEM owners of their particles, in order.
pub fn route_forces(forces: &[RoutedForce]) -> (routes: Vec<RoutedRecord>)
    ensures
        routed_to_dem_owners(forces@, routes@),
{
    let mut routes: Vec<RoutedRecord> = Vec::new();
    let n = forces.len();
    let mut i: usize = 0;
    while i < n
        invariant
            n == forces@.len(),
            i <= n,
            routes@.len() == i,
            forall|j: int|
                0 <= j < i ==> {
                    &&& #[trigger] routes@[j].destination == forces@[j].dem_owner
                    &&& routes@[j].entity_id == forces@[j].id
                    &&& routes@[j].payload@ == force_wire(forces@[j])
                },
        decreases n - i,
    {
        let force = forces[i];
        let payload = encode_force(force);
        routes.push(RoutedRecord { destination: force.dem_owner, entity_id: force.id, payload });
        i = i + 1;
    }
    routes
}

// ---------------------------------------------------------------------------
// Grouping of returned force contributions
// ---------------------------------------------------------------------------

/// All contributions to the fluid force on one particle, keyed by the
/// particle's ID and DEM owner, in arrival order.
#[derive(Debug, Clone, PartialEq, Eq)]
pub struct ForceContributions {
    /// Stable particle ID.
    pub id: u64,
    /// DEM role-rank that owns the particle.
    pub dem_owner: i32,
    /// Force contributions (bit patterns), in the order they arrived.
    pub contributions: Vec<[u64; 3]>,
}

/// Lexicographic order on `(id, dem_owner)` keys, the order of the tuple.
pub open spec fn key_lt(a_id: u64, a_owner: i32, b_id: u64, b_owner: i32) -> bool {
    a_id < b_id || (a_id == b_id && a_owner < b_owner)
}

/// The forces of `fs` keyed `(id, owner)`, in order.
pub open spec fn contributions_for(fs: Seq<RoutedForce>, id: u64, owner: i32) -> Seq<[u64; 3]>
    decreases fs.len(),
{
    if fs.len() == 0 {
        Seq::empty()
    } else {
        let rest = contributions_for(fs.drop_last(), id, owner);
        if fs.last().id == id && fs.last().dem_owner == owner {
            rest.push(fs.last().force)
        } else {
            rest
        }
    }
}

/// The contributions of a key are the forces of the records that carry that
/// key, in the order of the records: nothing else, nothing left out,
/// nothing reordered.
pub proof fn lemma_contributions_are_the_keyed_forces(fs: Seq<RoutedForce>, id: u64, owner: i32)
    ensures
        contributions_for(fs, id, owner) == fs.filter(
            |f: RoutedForce| f.id == id && f.dem_owner == owner,
        ).map_values(|f: RoutedForce| f.force),
    decreases fs.len(),
{
    reveal(Seq::filter);
    let pred = |f: RoutedForce| f.id == id && f.dem_owner == owner;
    let force_of = |f: RoutedForce| f.force;
    if fs.len() > 0 {
        let rest = fs.drop_last();
        lemma_contributions_are_the_keyed_forces(rest, id, owner);
        let kept = rest.filter(pred);
        if pred(fs.last()) {
            assert(kept.push(fs.last()).map_values(force_of) =~= kept.map_values(force_of).push(
                fs.last().force,
            ));
        }
    } else {
        assert(fs.filter(pred).map_values(force_of) =~= Seq::<[u64; 3]>::empty());
    }
}

/// The keys of `gs` increase strictly.
pub open spec fn keys_increase(gs: Seq<ForceContributions>) -> bool {
    forall|a: int, b: int|
        0 <= a < b < gs.len() ==> key_lt(
            #[trigger] gs[a].id,
            gs[a].dem_owner,
            #[trigger] gs[b].id,
            gs[b].dem_owner,
        )
}

/// Groups whose keys increase come in increasing particle ID, and groups of
/// one particle ID in increasing DEM owner; no key occurs twice.
pub proof fn lemma_increasing_keys_order_groups(gs: Seq<ForceContributions>, a: int, b: int)
    requires
        keys_increase(gs),
        0 <= a < b < gs.len(),
    ensures
        gs[a].id <= gs[b].id,
        gs[a].id == gs[b].id ==> gs[a].dem_owner < gs[b].dem_owner,
        !(gs[a].id == gs[b].id && gs[a].dem_owner == gs[b].dem_owner),
{
}

/// `gs` groups the forces `fs` by key: one group per key that occurs, in
/// increasing key order, each holding exactly the forces of its key in the
/// order they occur.
pub open spec fn groups_of(fs: Seq<RoutedForce>, gs: Seq<ForceContributions>) -> bool {
    &&& keys_increase(gs)
    &&& forall|i: int|
        0 <= i < gs.len() ==> {
            &&& (#[trigger] gs[i]).contributions@ == contributions_for(fs, gs[i].id, gs[i].dem_owner)
            &&& gs[i].contributions@.len() > 0
        }
    &&& forall|k: int| 0 <= k < fs.len() ==> #[trigger] has_key(gs, fs[k].id, fs[k].dem_owner)
}

/// The forces that a batch of delivered records yields when every record is
/// well formed.
pub open spec fn decoded_forces(s: Seq<ReceivedRecord>) -> Seq<RoutedForce> {
    Seq::new(s.len(), |i: int| received_force(s[i])->Ok_0)
}

proof fn lemma_contributions_push(fs: Seq<RoutedForce>, f: RoutedForce, id: u64, owner: i32)
    ensures
        contributions_for(fs.push(f), id, owner) == if f.id == id && f.dem_owner == owner {
            contributions_for(fs, id, owner).push(f.force)
        } else {
            contributions_for(fs, id, owner)
        },
{
    assert(fs.push(f).drop_last() =~= fs);
}

proof fn lemma_contributions_absent(fs: Seq<RoutedForce>, id: u64, owner: i32)
    requires
        forall|k: int| 0 <= k < fs.len() ==> !(#[trigger] fs[k].id == id && fs[k].dem_owner == owner),
    ensures
        contributions_for(fs, id, owner).len() == 0,
    decreases fs.len(),
{
    if fs.len() > 0 {
        let rest = fs.drop_last();
        assert forall|k: int| 0 <= k < rest.len() implies !(#[trigger] rest[k].id == id
            && rest[k].dem_owner == owner) by {
            assert(rest[k] == fs[k]);
        }
        lemma_contributions_absent(rest, id, owner);
        assert(fs.last() == fs[fs.len() - 1]);
    }
}

/// The map `m` keys the forces `fs`: every key that occurs in `fs` is a key of
/// `m`, and every key of `m` maps to exactly the forces of that key, in order.
pub open spec fn keyed_contributions(fs: Seq<RoutedForce>, m: Map<(u64, i32), Vec<[u64; 3]>>) -> bool {
    &&& forall|key: (u64, i32)|
        #[trigger] m.contains_key(key) ==> {
            &&& m[key]@ == contributions_for(fs, key.0, key.1)
            &&& m[key]@.len() > 0
        }
    &&& forall|k: int| 0 <= k < fs.len() ==> m.contains_key((#[trigger] fs[k].id, fs[k].dem_owner))
}

/// `(id, dem_owner)` keys, compared as tuples, form a total order.
proof fn lemma_key_order_obeyed()
    ensures
        vstd::laws_cmp::obeys_cmp::<(u64, i32)>(),
{
    broadcast use vstd::laws_cmp::group_laws_cmp;

}

/// Add one force to the contributions of its key, after those already there.
fn add_contribution(
    reduced: &mut BTreeMap<(u64, i32), Vec<[u64; 3]>>,
    force: RoutedForce,
    Ghost(fs): Ghost<Seq<RoutedForce>>,
)
    requires
        keyed_contributions(fs, old(reduced)@),
    ensures
        keyed_contributions(fs.push(force), final(reduced)@),
{
    broadcast use vstd::std_specs::btree::group_btree_axioms;

    proof {
        lemma_key_order_obeyed();
    }
    let ghost before = reduced@;
    let key = (force.id, force.dem_owner);
    let mut total = match reduced.remove(&key) {
        Some(contributions) => contributions,
        None => {
            proof {
                assert forall|k: int| 0 <= k < fs.len() implies !(#[trigger] fs[k].id == force.id
                    && fs[k].dem_owner == force.dem_owner) by {
                    assert(before.contains_key((fs[k].id, fs[k].dem_owner)));
                }
                lemma_contributions_absent(fs, force.id, force.dem_owner);
            }
            Vec::new()
        },
    };
    assert(total@ =~= contributions_for(fs, force.id, force.dem_owner));
    total.push(force.force);
    reduced.insert(key, total);
    let ghost fs2 = fs.push(force);
    assert forall|other: (u64, i32)| #[trigger] reduced@.contains_key(other) implies {
        &&& reduced@[other]@ == contributions_for(fs2, other.0, other.1)
        &&& reduced@[other]@.len() > 0
    } by {
        lemma_contributions_push(fs, force, other.0, other.1);
    }
    assert forall|k: int| 0 <= k < fs2.len() implies reduced@.contains_key(
        (#[trigger] fs2[k].id, fs2[k].dem_owner),
    ) by {
        if k < fs.len() {
            assert(fs2[k] == fs[k]);
            assert(before.contains_key((fs[k].id, fs[k].dem_owner)));
        }
    }
}

/// An element-wise copy of one key's contributions.
fn copy_contributions(v: &Vec<[u64; 3]>) -> (out: Vec<[u64; 3]>)
    ensures
        out@ == v@,
{
    let mut out: Vec<[u64; 3]> = Vec::new();
    let n = v.len();
    let mut i: usize = 0;
    while i < n
        invariant
            n == v@.len(),
            i <= n,
            out@ == v@.take(i as int),
        decreases n - i,
    {
        out.push(v[i]);
        i = i + 1;
        assert(out@ =~= v@.take(i as int));
    }
    assert(v@.take(n as int) =~= v@);
    out
}

/// The groups of a keyed map, in increasing key order.
fn groups_in_key_order(m: &BTreeMap<(u64, i32), Vec<[u64; 3]>>) -> (out: Vec<ForceContributions>)
    ensures
        keys_increase(out@),
        forall|i: int|
            0 <= i < out@.len() ==> m@.contains_key(((#[trigger] out@[i]).id, out@[i].dem_owner))
                && out@[i].contributions@ == m@[(out@[i].id, out@[i].dem_owner)]@,
        forall|key: (u64, i32)| #[trigger] m@.contains_key(key) ==> has_key(out@, key.0, key.1),
{
    broadcast use vstd::std_specs::btree::group_btree_axioms, vstd::laws_cmp::group_laws_cmp;

    assert(vstd::laws_cmp::obeys_cmp::<(u64, i32)>());
    let mut out: Vec<ForceContributions> = Vec::new();
    let iter = m.iter();
    let ghost entries = iter.remaining();
    let ghost keys = entries.map_values(|kv: (&(u64, i32), &Vec<[u64; 3]>)| *kv.0);
    assert(forall|i: int, j: int| #![trigger keys[i], keys[j]] 0 <= i < j < keys.len() ==> keys[i].cmp_spec(&keys[j]) is Less);
    for kv in it: iter
        invariant
            entries == it.seq(),
            keys == it.seq().map_values(|kv: (&(u64, i32), &Vec<[u64; 3]>)| *kv.0),
            out@.len() == it.index(),
            forall|i: int|
                0 <= i < it.index() ==> {
                    &&& (#[trigger] out@[i]).id == keys[i].0
                    &&& out@[i].dem_owner == keys[i].1
                    &&& out@[i].contributions@ == (*entries[i].1)@
                },
    {
        let (key, contributions) = kv;
        out.push(ForceContributions { id: key.0, dem_owner: key.1, contributions: copy_contributions(contributions) });
    }
    assert forall|key: (u64, i32)| #[trigger] m@.contains_key(key) implies has_key(out@, key.0, key.1) by {
        assert(entries.contains((&key, &m@[key])));
        let i = choose|i: int| 0 <= i < entries.len() && entries[i] == (&key, &m@[key]);
        assert(out@[i].id == key.0);
    }
    out
}

/// Decode returned force records and group the contributions by particle ID
/// and DEM owner, in increasing key order, keeping arrival order within each
/// particle. Several field owners may contribute to one particle when a
/// finite-support mapping routes it to several partitions. The first record
/// that is malformed or names another entity than its envelope fails the
/// whole batch.
pub fn group_forces(incoming: &[ReceivedRecord]) -> (out: Result<
    Vec<ForceContributions>,
    ParticleRoutingError,
>)
    ensures
        out is Ok <==> forall|i: int|
            0 <= i < incoming@.len() ==> #[trigger] received_force(incoming@[i]) is Ok,
        out matches Ok(groups) ==> groups_of(decoded_forces(incoming@), groups@),
        out matches Err(e) ==> exists|k: int|
            0 <= k < incoming@.len() && (forall|j: int|
                0 <= j < k ==> #[trigger] received_force(incoming@[j]) is Ok) && received_force(
                incoming@[k],
            ) == Err::<RoutedForce, ParticleRoutingError>(e),
        out is Ok ==> forall|i: int|
            0 <= i < incoming@.len() ==> {
                &&& (#[trigger] decoded_forces(incoming@)[i]).id == incoming@[i].entity_id
                &&& incoming@[i].payload@ == force_wire(decoded_forces(incoming@)[i])
            },
        forall|k: int, f: RoutedForce|
            #![trigger incoming@[k], force_wire(f)]
            0 <= k < incoming@.len() && (forall|j: int|
                0 <= j < k ==> #[trigger] received_force(incoming@[j]) is Ok)
                && incoming@[k].payload@ == force_wire(f) && f.id != incoming@[k].entity_id
                ==> out is Err && out->Err_0 == (ParticleRoutingError::EntityIdMismatch { envelope: incoming@[k].entity_id, payload: f.id }),
{
    let mut reduced: BTreeMap<(u64, i32), Vec<[u64; 3]>> = BTreeMap::new();
    let ghost mut fs: Seq<RoutedForce> = Seq::empty();
    let n = incoming.len();
    let mut i: usize = 0;
    while i < n
        invariant
            n == incoming@.len(),
            i <= n,
            fs.len() == i,
            forall|j: int| 0 <= j < i ==> #[trigger] received_force(incoming@[j]) is Ok,
            forall|j: int|
                0 <= j < i ==> received_force(incoming@[j]) == Ok::<RoutedForce, ParticleRoutingError>(
                    #[trigger] fs[j],
                ),
            keyed_contributions(fs, reduced@),
        decreases n - i,
    {
        let record = &incoming[i];
        let force = match decode_force(record.payload.as_slice()) {
            Ok(f) => f,
            Err(e) => {
                assert(received_force(incoming@[i as int]) is Err);
                proof {
                    lemma_force_batch_fails_first(incoming@, false, e);
                }
                return Err(e);
            },
        };
        if force.id != record.entity_id {
            assert(received_force(incoming@[i as int]) is Err);
            let e = ParticleRoutingError::EntityIdMismatch {
                envelope: record.entity_id,
                payload: force.id,
            };
            proof {
                lemma_force_batch_fails_first(incoming@, false, e);
            }
            return Err(e);
        }
        assert(received_force(incoming@[i as int]) == Ok::<RoutedForce, ParticleRoutingError>(force));
        add_contribution(&mut reduced, force, Ghost(fs));
        proof {
            fs = fs.push(force);
        }
        i = i + 1;
    }
    assert(fs =~= decoded_forces(incoming@));
    let groups = groups_in_key_order(&reduced);
    assert forall|k: int| 0 <= k < fs.len() implies #[trigger] has_key(
        groups@,
        fs[k].id,
        fs[k].dem_owner,
    ) by {
        assert(reduced@.contains_key((fs[k].id, fs[k].dem_owner)));
    }
    assert forall|g: int| 0 <= g < groups@.len() implies {
        &&& (#[trigger] groups@[g]).contributions@ == contributions_for(
            fs,
            groups@[g].id,
            groups@[g].dem_owner,
        )
        &&& groups@[g].contributions@.len() > 0
    } by {
        assert(reduced@.contains_key((groups@[g].id, groups@[g].dem_owner)));
    }
    assert(groups_of(fs, groups@));
    assert forall|i: int| 0 <= i < incoming@.len() implies {
        &&& (#[trigger] decoded_forces(incoming@)[i]).id == incoming@[i].entity_id
        &&& incoming@[i].payload@ == force_wire(decoded_forces(incoming@)[i])
    } by {
        lemma_received_force_names_envelope(incoming@[i], fs[i]);
    }
    proof {
        lemma_force_batch_fails_first(incoming@, true, ParticleRoutingError::EntityIdMismatch {
            envelope: 0,
            payload: 0,
        });
    }
    Ok(groups)
}

/// A batch of force records that fails as its first refused record does
/// (`accepted` telling whether it was accepted, `e` the error otherwise)
/// fails with a mismatch at the first record that carries another particle's
/// force than its envelope names.
proof fn lemma_force_batch_fails_first(
    incoming: Seq<ReceivedRecord>,
    accepted: bool,
    e: ParticleRoutingError,
)
    requires
        accepted <==> forall|i: int|
            0 <= i < incoming.len() ==> #[trigger] received_force(incoming[i]) is Ok,
        !accepted ==> exists|k: int|
            0 <= k < incoming.len() && (forall|j: int|
                0 <= j < k ==> #[trigger] received_force(incoming[j]) is Ok) && received_force(
                incoming[k],
            ) == Err::<RoutedForce, ParticleRoutingError>(e),
    ensures
        forall|k: int, f: RoutedForce|
            #![trigger incoming[k], force_wire(f)]
            0 <= k < incoming.len() && (forall|j: int|
                0 <= j < k ==> #[trigger] received_force(incoming[j]) is Ok)
                && incoming[k].payload@ == force_wire(f) && f.id != incoming[k].entity_id
                ==> !accepted && e == (ParticleRoutingError::EntityIdMismatch { envelope: incoming[k].entity_id, payload: f.id }),
{
    assert forall|k: int, f: RoutedForce|
        #![trigger incoming[k], force_wire(f)]
        0 <= k < incoming.len() && (forall|j: int|
            0 <= j < k ==> #[trigger] received_force(incoming[j]) is Ok)
            && incoming[k].payload@ == force_wire(f) && f.id != incoming[k].entity_id
        implies !accepted && e == (ParticleRoutingError::EntityIdMismatch { envelope: incoming[k].entity_id, payload: f.id }) by {
        lemma_received_force_names_envelope(incoming[k], f);
        assert(received_force(incoming[k]) is Err);
        let k2 = choose|k2: int|
            0 <= k2 < incoming.len() && (forall|j: int|
                0 <= j < k2 ==> #[trigger] received_force(incoming[j]) is Ok) && received_force(
                incoming[k2],
            ) == Err::<RoutedForce, ParticleRoutingError>(e);
        if k2 < k {
            assert(received_force(incoming[k2]) is Ok);
        } else if k2 > k {
            assert(received_force(incoming[k]) is Ok);
        }
    }
}

// ---------------------------------------------------------------------------
// Laws of routing and delivery
// ---------------------------------------------------------------------------

/// `received` is `routes` as the exchange delivers them: in order, each with
/// the entity ID and payload it was sent with, whatever rank it came from.
pub open spec fn delivered(routes: Seq<RoutedRecord>, received: Seq<ReceivedRecord>) -> bool {
    &&& received.len() == routes.len()
    &&& forall|i: int|
        0 <= i < routes.len() ==> {
            &&& #[trigger] received[i].entity_id == routes[i].entity_id
            &&& received[i].payload@ == routes[i].payload@
        }
}

/// Particles routed to their field owners and delivered unchanged decode,
/// record by record, to the particles that were routed.
pub proof fn lemma_routed_particles_decode(
    owners: Seq<Option<i32>>,
    particles: Seq<RoutedParticle>,
    routes: Seq<RoutedRecord>,
    received: Seq<ReceivedRecord>,
)
    requires
        routed_to_owners(owners, particles, routes),
        delivered(routes, received),
    ensures
        received.len() == particles.len(),
        forall|i: int|
            0 <= i < received.len() ==> #[trigger] received_particle(received[i]) == Ok::<
                RoutedParticle,
                ParticleRoutingError,
            >(particles[i]),
{
    assert forall|i: int| 0 <= i < received.len() implies #[trigger] received_particle(received[i])
        == Ok::<RoutedParticle, ParticleRoutingError>(particles[i]) by {
        assert(owners[i] == Some(routes[i].destination));
        assert(received[i].entity_id == routes[i].entity_id);
        lemma_particle_round_trip(particles[i]);
    }
}

/// Forces routed to their DEM owners and delivered unchanged decode, record
/// by record, to the forces that were routed.
pub proof fn lemma_routed_forces_decode(
    forces: Seq<RoutedForce>,
    routes: Seq<RoutedRecord>,
    received: Seq<ReceivedRecord>,
)
    requires
        routed_to_dem_owners(forces, routes),
        delivered(routes, received),
    ensures
        forall|i: int|
            0 <= i < received.len() ==> #[trigger] received_force(received[i]) == Ok::<
                RoutedForce,
                ParticleRoutingError,
            >(forces[i]),
        decoded_forces(received) == forces,
{
    assert forall|i: int| 0 <= i < received.len() implies #[trigger] received_force(received[i])
        == Ok::<RoutedForce, ParticleRoutingError>(forces[i]) by {
        assert(routes[i].destination == forces[i].dem_owner);
        assert(received[i].entity_id == routes[i].entity_id);
        lemma_force_round_trip(forces[i]);
    }
    assert(decoded_forces(received) =~= forces);
}

/// No two forces of `fs` share an `(id, dem_owner)` key.
pub open spec fn distinct_keys(fs: Seq<RoutedForce>) -> bool {
    forall|a: int, b: int|
        0 <= a < b < fs.len() ==> !(#[trigger] fs[a].id == #[trigger] fs[b].id && fs[a].dem_owner
            == fs[b].dem_owner)
}

proof fn lemma_contributions_single(fs: Seq<RoutedForce>, k: int)
    requires
        distinct_keys(fs),
        0 <= k < fs.len(),
    ensures
        contributions_for(fs, fs[k].id, fs[k].dem_owner) == seq![fs[k].force],
    decreases fs.len(),
{
    let rest = fs.drop_last();
    let last = fs.len() - 1;
    if k == last {
        assert forall|m: int| 0 <= m < rest.len() implies !(#[trigger] rest[m].id == fs[k].id
            && rest[m].dem_owner == fs[k].dem_owner) by {
            assert(rest[m] == fs[m]);
        }
        lemma_contributions_absent(rest, fs[k].id, fs[k].dem_owner);
        assert(contributions_for(rest, fs[k].id, fs[k].dem_owner) =~= Seq::<[u64; 3]>::empty());
    } else {
        assert forall|a: int, b: int| 0 <= a < b < rest.len() implies !(#[trigger] rest[a].id
            == #[trigger] rest[b].id && rest[a].dem_owner == rest[b].dem_owner) by {
            assert(rest[a] == fs[a] && rest[b] == fs[b]);
        }
        assert(rest[k] == fs[k]);
        lemma_contributions_single(rest, k);
        assert(!(fs[k].id == fs[last].id && fs[k].dem_owner == fs[last].dem_owner));
    }
}

/// `gs` has a group keyed `(id, owner)` holding exactly `contributions`.
pub open spec fn has_group(
    gs: Seq<ForceContributions>,
    id: u64,
    owner: i32,
    contributions: Seq<[u64; 3]>,
) -> bool {
    exists|i: int|
        0 <= i < gs.len() && #[trigger] gs[i].id == id && gs[i].dem_owner == owner
            && gs[i].contributions@ == contributions
}

/// When every particle receives exactly one force record, grouping returns
/// one group per force, holding that force alone: the force that comes back
/// to a DEM owner is the force that was sent.
pub proof fn lemma_single_contributions(fs: Seq<RoutedForce>, gs: Seq<ForceContributions>)
    requires
        groups_of(fs, gs),
        distinct_keys(fs),
    ensures
        forall|k: int|
            0 <= k < fs.len() ==> #[trigger] has_group(
                gs,
                fs[k].id,
                fs[k].dem_owner,
                seq![fs[k].force],
            ),
        forall|i: int| 0 <= i < gs.len() ==> (#[trigger] gs[i]).contributions@.len() == 1,
{
    assert forall|k: int| 0 <= k < fs.len() implies #[trigger] has_group(
        gs,
        fs[k].id,
        fs[k].dem_owner,
        seq![fs[k].force],
    ) by {
        assert(has_key(gs, fs[k].id, fs[k].dem_owner));
        let i = choose|i: int|
            0 <= i < gs.len() && #[trigger] gs[i].id == fs[k].id && gs[i].dem_owner == fs[k].dem_owner;
        lemma_contributions_single(fs, k);
        assert(gs[i].contributions@ == seq![fs[k].force]);
    }
    assert forall|i: int| 0 <= i < gs.len() implies (#[trigger] gs[i]).contributions@.len() == 1 by {
        let id = gs[i].id;
        let owner = gs[i].dem_owner;
        if forall|m: int| 0 <= m < fs.len() ==> !(#[trigger] fs[m].id == id && fs[m].dem_owner == owner) {
            lemma_contributions_absent(fs, id, owner);
        } else {
            let m = choose|m: int| 0 <= m < fs.len() && #[trigger] fs[m].id == id && fs[m].dem_owner == owner;
            lemma_contributions_single(fs, m);
        }
    }
}

proof fn lemma_contributions_present(fs: Seq<RoutedForce>, id: u64, owner: i32)
    requires
        contributions_for(fs, id, owner).len() > 0,
    ensures
        exists|k: int| 0 <= k < fs.len() && #[trigger] fs[k].id == id && fs[k].dem_owner == owner,
{
    if !exists|k: int| 0 <= k < fs.len() && #[trigger] fs[k].id == id && fs[k].dem_owner == owner {
        lemma_contributions_absent(fs, id, owner);
    }
}

/// `gs` holds a group keyed `(id, owner)`.
pub open spec fn has_key(gs: Seq<ForceContributions>, id: u64, owner: i32) -> bool {
    exists|b: int| 0 <= b < gs.len() && #[trigger] gs[b].id == id && gs[b].dem_owner == owner
}

/// Every key of `gs` is a key of `hs` and the other way round.
pub open spec fn same_keys(gs: Seq<ForceContributions>, hs: Seq<ForceContributions>) -> bool {
    &&& forall|a: int| 0 <= a < gs.len() ==> #[trigger] has_key(hs, gs[a].id, gs[a].dem_owner)
    &&& forall|b: int| 0 <= b < hs.len() ==> #[trigger] has_key(gs, hs[b].id, hs[b].dem_owner)
}

/// Two key-sorted groupings with the same keys agree, key by key, below `i`.
proof fn lemma_sorted_keys_agree(gs: Seq<ForceContributions>, hs: Seq<ForceContributions>, i: int)
    requires
        keys_increase(gs),
        keys_increase(hs),
        same_keys(gs, hs),
        0 <= i <= gs.len(),
        i <= hs.len(),
    ensures
        forall|j: int| 0 <= j < i ==> #[trigger] gs[j].id == hs[j].id && gs[j].dem_owner == hs[j].dem_owner,
    decreases i,
{
    if i > 0 {
        let j = i - 1;
        lemma_sorted_keys_agree(gs, hs, j);
        assert(forall|t: int| 0 <= t < j ==> gs[t].id == hs[t].id);
        assert(has_key(hs, gs[j].id, gs[j].dem_owner));
        assert(has_key(gs, hs[j].id, hs[j].dem_owner));
        let p = choose|b: int|
            0 <= b < hs.len() && #[trigger] hs[b].id == gs[j].id && hs[b].dem_owner == gs[j].dem_owner;
        let q = choose|a: int|
            0 <= a < gs.len() && #[trigger] gs[a].id == hs[j].id && gs[a].dem_owner == hs[j].dem_owner;
        if p < j {
            assert(gs[p].id == hs[p].id && gs[p].dem_owner == hs[p].dem_owner);
            assert(key_lt(gs[p].id, gs[p].dem_owner, gs[j].id, gs[j].dem_owner));
        }
        if q < j {
            assert(gs[q].id == hs[q].id && gs[q].dem_owner == hs[q].dem_owner);
            assert(key_lt(hs[q].id, hs[q].dem_owner, hs[j].id, hs[j].dem_owner));
        }
        if p > j {
            assert(key_lt(hs[j].id, hs[j].dem_owner, hs[p].id, hs[p].dem_owner));
            if q > j {
                assert(key_lt(gs[j].id, gs[j].dem_owner, gs[q].id, gs[q].dem_owner));
            }
        }
    }
}

/// The grouping is deterministic: batches that hold, for every particle, the
/// same contributions in the same order (however the records of different
/// particles interleave) group to the same keys and contributions.
pub proof fn lemma_grouping_is_deterministic(
    fs1: Seq<RoutedForce>,
    fs2: Seq<RoutedForce>,
    gs1: Seq<ForceContributions>,
    gs2: Seq<ForceContributions>,
)
    requires
        groups_of(fs1, gs1),
        groups_of(fs2, gs2),
        forall|id: u64, owner: i32| #[trigger]
            contributions_for(fs1, id, owner) == contributions_for(fs2, id, owner),
    ensures
        gs1.len() == gs2.len(),
        forall|i: int|
            0 <= i < gs1.len() ==> {
                &&& #[trigger] gs1[i].id == gs2[i].id
                &&& gs1[i].dem_owner == gs2[i].dem_owner
                &&& gs1[i].contributions@ == gs2[i].contributions@
            },
{
    assert forall|a: int| 0 <= a < gs1.len() implies #[trigger] has_key(
        gs2,
        gs1[a].id,
        gs1[a].dem_owner,
    ) by {
        let (id, owner) = (gs1[a].id, gs1[a].dem_owner);
        assert(contributions_for(fs1, id, owner) == contributions_for(fs2, id, owner));
        lemma_contributions_present(fs2, id, owner);
        let k = choose|k: int| 0 <= k < fs2.len() && #[trigger] fs2[k].id == id && fs2[k].dem_owner == owner;
        assert(has_key(gs2, fs2[k].id, fs2[k].dem_owner));
    }
    assert forall|b: int| 0 <= b < gs2.len() implies #[trigger] has_key(
        gs1,
        gs2[b].id,
        gs2[b].dem_owner,
    ) by {
        let (id, owner) = (gs2[b].id, gs2[b].dem_owner);
        assert(contributions_for(fs1, id, owner) == contributions_for(fs2, id, owner));
        lemma_contributions_present(fs1, id, owner);
        let k = choose|k: int| 0 <= k < fs1.len() && #[trigger] fs1[k].id == id && fs1[k].dem_owner == owner;
        assert(has_key(gs1, fs1[k].id, fs1[k].dem_owner));
    }
    let m = if gs1.len() <= gs2.len() { gs1.len() as int } else { gs2.len() as int };
    lemma_sorted_keys_agree(gs1, gs2, m);
    if gs1.len() > gs2.len() {
        let x = gs2.len() as int;
        assert(has_key(gs2, gs1[x].id, gs1[x].dem_owner));
        let p = choose|b: int|
            0 <= b < gs2.len() && #[trigger] gs2[b].id == gs1[x].id && gs2[b].dem_owner == gs1[x].dem_owner;
        assert(gs1[p].id == gs2[p].id && gs1[p].dem_owner == gs2[p].dem_owner);
        assert(key_lt(gs1[p].id, gs1[p].dem_owner, gs1[x].id, gs1[x].dem_owner));
    }
    if gs2.len() > gs1.len() {
        let x = gs1.len() as int;
        assert(has_key(gs1, gs2[x].id, gs2[x].dem_owner));
        let q = choose|a: int|
            0 <= a < gs1.len() && #[trigger] gs1[a].id == gs2[x].id && gs1[a].dem_owner == gs2[x].dem_owner;
        assert(gs1[q].id == gs2[q].id && gs1[q].dem_owner == gs2[q].dem_owner);
        assert(key_lt(gs2[q].id, gs2[q].dem_owner, gs2[x].id, gs2[x].dem_owner));
    }
    assert forall|i: int| 0 <= i < gs1.len() implies {
        &&& #[trigger] gs1[i].id == gs2[i].id
        &&& gs1[i].dem_owner == gs2[i].dem_owner
        &&& gs1[i].contributions@ == gs2[i].contributions@
    } by {
        assert(gs1[i].id == gs2[i].id && gs1[i].dem_owner == gs2[i].dem_owner);
        assert(contributions_for(fs1, gs1[i].id, gs1[i].dem_owner) == contributions_for(fs2, gs1[i].id, gs1[i].dem_owner));
    }
}

} // verus!
