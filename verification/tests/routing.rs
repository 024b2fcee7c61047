use dem_cfd::routing::{
    decode_force, decode_particle, decode_particles, encode_force, encode_particle, group_forces,
    read_i32, read_u64, route_forces, route_particles, ForceContributions, ParticleRoutingError,
    ReceivedRecord, RoutedForce, RoutedParticle, FORCE_BYTES, PARTICLE_BYTES,
};

fn bits(v: [f64; 3]) -> [u64; 3] {
    [v[0].to_bits(), v[1].to_bits(), v[2].to_bits()]
}

fn particle(id: u64, owner: i32, x: f64) -> RoutedParticle {
    RoutedParticle {
        id,
        dem_owner: owner,
        center: bits([x, 0.5, 0.5]),
        velocity: bits([x, -x, 0.0]),
        radius: 0.01f64.to_bits(),
        prev_force: bits([0.5 * x, -0.25 * x, 0.125]),
    }
}

/// The field owner that a two-rank split of the unit x-interval (ten cells,
/// five per rank) gives a center; `None` outside the domain.
fn owner_of(x: f64) -> Option<i32> {
    if !(0.0..=1.0).contains(&x) {
        None
    } else if x < 0.5 {
        Some(0)
    } else {
        Some(1)
    }
}

fn received(source: i32, entity_id: u64, payload: Vec<u8>) -> ReceivedRecord {
    ReceivedRecord { source, entity_id, payload }
}

fn summed(group: &ForceContributions) -> [f64; 3] {
    let mut total = [0.0f64; 3];
    for c in &group.contributions {
        for axis in 0..3 {
            total[axis] += f64::from_bits(c[axis]);
        }
    }
    total
}

#[test]
fn routes_particle_centers_to_field_owners() {
    let particles = [particle(1, 0, 0.1), particle(2, 1, 0.5)];
    let owners: Vec<Option<i32>> = particles
        .iter()
        .map(|p| owner_of(f64::from_bits(p.center[0])))
        .collect();
    let routes = route_particles(&owners, &particles).unwrap();
    assert_eq!(routes[0].destination, 0);
    assert_eq!(routes[1].destination, 1);
}

#[test]
fn particle_and_force_codecs_round_trip_and_reduce() {
    let p = particle(8, 2, 0.75);
    assert_eq!(decode_particle(&encode_particle(p)).unwrap(), p);
    let incoming = vec![
        received(
            0,
            8,
            encode_force(RoutedForce { id: 8, dem_owner: 2, force: bits([1.0, 2.0, 3.0]) }),
        ),
        received(
            1,
            8,
            encode_force(RoutedForce { id: 8, dem_owner: 2, force: bits([4.0, 5.0, 6.0]) }),
        ),
    ];
    let groups = group_forces(&incoming).unwrap();
    assert_eq!(groups.len(), 1);
    assert_eq!(groups[0].id, 8);
    assert_eq!(groups[0].dem_owner, 2);
    assert_eq!(summed(&groups[0]), [5.0, 7.0, 9.0]);
}

#[test]
fn outside_particle_fails_closed() {
    let particles = [particle(4, 0, 1.1)];
    let owners = [owner_of(1.1)];
    let error = route_particles(&owners, &particles).unwrap_err();
    assert!(matches!(error, ParticleRoutingError::OutsideFieldDomain { id: 4, .. }));
}

#[test]
fn record_lengths_are_fixed() {
    assert_eq!(PARTICLE_BYTES, 92);
    assert_eq!(FORCE_BYTES, 36);
    assert_eq!(encode_particle(particle(3, -1, 0.2)).len(), PARTICLE_BYTES);
    let f = RoutedForce { id: 3, dem_owner: -1, force: bits([0.0, 1.0, -2.0]) };
    assert_eq!(encode_force(f).len(), FORCE_BYTES);
}

#[test]
fn force_record_bytes_are_little_endian() {
    let f = RoutedForce { id: 0x0102030405060708, dem_owner: -2, force: [1, 256, u64::MAX] };
    let b = encode_force(f);
    assert_eq!(&b[0..8], &[8, 7, 6, 5, 4, 3, 2, 1]);
    assert_eq!(&b[8..12], &[0xfe, 0xff, 0xff, 0xff]);
    assert_eq!(&b[12..20], &[1, 0, 0, 0, 0, 0, 0, 0]);
    assert_eq!(&b[20..28], &[0, 1, 0, 0, 0, 0, 0, 0]);
    assert_eq!(&b[28..36], &[0xff; 8]);
    assert_eq!(decode_force(&b).unwrap(), f);
}

#[test]
fn particle_record_carries_f64_bytes() {
    let p = particle(9, 1, 0.3);
    let b = encode_particle(p);
    assert_eq!(&b[12..20], &0.3f64.to_le_bytes());
    assert_eq!(&b[60..68], &0.01f64.to_le_bytes());
    assert_eq!(&b[84..92], &0.125f64.to_le_bytes());
}

#[test]
fn cursor_reads_advance() {
    let bytes = [1u8, 0, 0, 0, 0, 0, 0, 0, 0xff, 0xff, 0xff, 0x7f];
    let mut cursor = 0usize;
    assert_eq!(read_u64(&bytes, &mut cursor), 1);
    assert_eq!(cursor, 8);
    assert_eq!(read_i32(&bytes, &mut cursor), i32::MAX);
    assert_eq!(cursor, 12);
}

#[test]
fn malformed_records_are_rejected() {
    let mut b = encode_particle(particle(5, 0, 0.4));
    b.pop();
    assert_eq!(
        decode_particle(&b),
        Err(ParticleRoutingError::MalformedPayload { expected: 92, actual: 91 })
    );
    let mut f = encode_force(RoutedForce { id: 5, dem_owner: 0, force: [0; 3] });
    f.push(0);
    assert_eq!(
        decode_force(&f),
        Err(ParticleRoutingError::MalformedPayload { expected: 36, actual: 37 })
    );
}

#[test]
fn delivered_particles_decode_to_routed_particles() {
    let particles = [particle(1, 0, 0.1), particle(2, 2, 0.9), particle(3, 1, 0.4)];
    let owners = [Some(0), Some(1), Some(0)];
    let routes = route_particles(&owners, &particles).unwrap();
    let incoming: Vec<ReceivedRecord> = routes
        .iter()
        .map(|r| received(7, r.entity_id, r.payload.clone()))
        .collect();
    assert_eq!(decode_particles(&incoming).unwrap(), particles.to_vec());
}

#[test]
fn first_unowned_particle_fails_the_batch() {
    let particles = [particle(1, 0, 0.1), particle(2, 0, 1.5), particle(3, 0, -0.5)];
    let owners = [Some(0), None, None];
    assert_eq!(
        route_particles(&owners, &particles).unwrap_err(),
        ParticleRoutingError::OutsideFieldDomain { id: 2, center: bits([1.5, 0.5, 0.5]) }
    );
}

#[test]
fn envelope_mismatch_is_reported() {
    let incoming = vec![
        received(0, 1, encode_particle(particle(1, 0, 0.1))),
        received(0, 9, encode_particle(particle(2, 0, 0.2))),
        received(0, 3, vec![0u8; 4]),
    ];
    assert_eq!(
        decode_particles(&incoming).unwrap_err(),
        ParticleRoutingError::EntityIdMismatch { envelope: 9, payload: 2 }
    );
    let forces = vec![received(
        1,
        4,
        encode_force(RoutedForce { id: 5, dem_owner: 0, force: [0; 3] }),
    )];
    assert_eq!(
        group_forces(&forces).unwrap_err(),
        ParticleRoutingError::EntityIdMismatch { envelope: 4, payload: 5 }
    );
}

#[test]
fn forces_return_to_their_dem_owners() {
    let forces = [
        RoutedForce { id: 100, dem_owner: 0, force: bits([1.0, 0.0, 0.0]) },
        RoutedForce { id: 111, dem_owner: 1, force: bits([0.0, 2.0, 0.0]) },
        RoutedForce { id: 120, dem_owner: 2, force: bits([0.0, 0.0, 3.0]) },
    ];
    let routes = route_forces(&forces);
    assert_eq!(routes.len(), 3);
    for (route, force) in routes.iter().zip(&forces) {
        assert_eq!(route.destination, force.dem_owner);
        assert_eq!(route.entity_id, force.id);
        assert_eq!(decode_force(&route.payload).unwrap(), *force);
    }
}

#[test]
fn single_contributions_come_back_unchanged() {
    let forces = [
        RoutedForce { id: 111, dem_owner: 1, force: bits([0.0, 2.0, 0.0]) },
        RoutedForce { id: 110, dem_owner: 1, force: bits([1.5, 0.0, 0.0]) },
    ];
    let incoming: Vec<ReceivedRecord> = route_forces(&forces)
        .into_iter()
        .map(|r| received(0, r.entity_id, r.payload))
        .collect();
    let groups = group_forces(&incoming).unwrap();
    assert_eq!(groups.len(), 2);
    assert_eq!(groups[0].id, 110);
    assert_eq!(groups[0].contributions, vec![forces[1].force]);
    assert_eq!(groups[1].id, 111);
    assert_eq!(groups[1].contributions, vec![forces[0].force]);
}

#[test]
fn groups_are_ordered_by_key_and_keep_arrival_order() {
    let f = |id: u64, owner: i32, x: f64| {
        received(0, id, encode_force(RoutedForce { id, dem_owner: owner, force: bits([x, 0.0, 0.0]) }))
    };
    let incoming = vec![f(5, 1, 1.0), f(3, 2, 2.0), f(3, 1, 3.0), f(5, 1, 4.0), f(3, -1, 5.0)];
    let groups = group_forces(&incoming).unwrap();
    let keys: Vec<(u64, i32)> = groups.iter().map(|g| (g.id, g.dem_owner)).collect();
    assert_eq!(keys, vec![(3, -1), (3, 1), (3, 2), (5, 1)]);
    assert_eq!(
        groups[3].contributions,
        vec![bits([1.0, 0.0, 0.0]), bits([4.0, 0.0, 0.0])]
    );
    assert_eq!(summed(&groups[3]), [5.0, 0.0, 0.0]);
    assert!(group_forces(&[]).unwrap().is_empty());
}
