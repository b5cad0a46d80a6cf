use falling_sand::sand::{
    could_move_to, tick_slot, KillParticleError, LocalWorld, ParticleBehavior, SpawnParticleError,
    WorldOutOfBoundsError,
};
use falling_sand::slots::{MappedSlotsOutOfBoundsError, MappedSlotsPopAtError, MappedSlotsPushError};
use falling_sand::vector::I16Vec2;

#[derive(Clone, Copy, Debug, PartialEq)]
struct Grain {
    cell: I16Vec2,
    tag: u32,
}

impl ParticleBehavior for Grain {
    fn cell_of(&self) -> I16Vec2 {
        self.cell
    }

    fn with_cell(self, pos: I16Vec2) -> Self {
        Grain { cell: pos, ..self }
    }

    fn slot_pos(&self) -> I16Vec2 {
        self.cell
    }

    fn set_slot_pos(&mut self, pos: I16Vec2) {
        self.cell = pos;
    }
}

fn grain(x: i16, y: i16, tag: u32) -> Grain {
    Grain { cell: I16Vec2::new(x, y), tag }
}

type World = LocalWorld<Grain, (i32, i32), 4, 3, 5>;

#[test]
fn error_conversions() {
    assert_eq!(WorldOutOfBoundsError::from(MappedSlotsOutOfBoundsError), WorldOutOfBoundsError);
    assert_eq!(SpawnParticleError::from(MappedSlotsPushError::PosOutOfBounds), SpawnParticleError::OutOfBounds);
    assert_eq!(SpawnParticleError::from(MappedSlotsPushError::AlreadyOccupied), SpawnParticleError::Conflict);
    assert_eq!(SpawnParticleError::from(MappedSlotsPushError::Full), SpawnParticleError::Other);
    assert_eq!(KillParticleError::from(MappedSlotsPopAtError::PosOutOfBounds), KillParticleError::OutOfBounds);
    assert_eq!(KillParticleError::from(MappedSlotsPopAtError::NotOccupied), KillParticleError::NothingThere);
}

#[test]
fn could_move_to_only_into_empty_cells() {
    assert!(could_move_to::<Grain>(&Ok(None)));
    assert!(!could_move_to(&Ok(Some(grain(0, 0, 1)))));
    assert!(!could_move_to::<Grain>(&Err(WorldOutOfBoundsError)));
}

#[test]
fn tick_order_values() {
    assert_eq!(tick_slot(0), 0);
    assert_eq!(tick_slot(1), 2573);
    assert_eq!(tick_slot(4), 292);
    assert_eq!(tick_slot(9999), 7427);
    assert_eq!(tick_slot(u16::MAX), 1555);
}

#[test]
fn tick_order_visits_every_slot_once() {
    let mut seen = vec![false; 10000];
    for i in 0..10000u16 {
        let s = tick_slot(i) as usize;
        assert!(!seen[s]);
        seen[s] = true;
    }
    assert!(seen.iter().all(|&b| b));
}

#[test]
fn new_world_is_empty_with_default_gravity() {
    let world = World::new();
    assert_eq!(world.get_gravity(), (0, 0));
    for y in 0..3 {
        for x in 0..4 {
            assert_eq!(world.get_particle_at(I16Vec2::new(x, y)), Ok(None));
        }
    }
    assert_eq!(world.get_particle_at(I16Vec2::new(4, 0)), Err(WorldOutOfBoundsError));
    assert_eq!(world.get_particle_at(I16Vec2::new(-1, 0)), Err(WorldOutOfBoundsError));
}

#[test]
fn gravity_is_set_and_read() {
    let mut world = World::new();
    world.set_global_gravity((3, -9));
    assert_eq!(world.get_gravity(), (3, -9));
}

#[test]
fn spawn_then_lookup() {
    let mut world = World::new();
    let g = grain(2, 1, 7);
    assert_eq!(world.spawn_particle(g), Ok(()));
    assert_eq!(world.get_particle_at(I16Vec2::new(2, 1)), Ok(Some(g)));
    assert_eq!(world.get_particle_at(I16Vec2::new(1, 2)), Ok(None));
}

#[test]
fn spawn_errors() {
    let mut world = World::new();
    assert_eq!(world.spawn_particle(grain(4, 0, 1)), Err(SpawnParticleError::OutOfBounds));
    assert_eq!(world.spawn_particle(grain(-1, 0, 1)), Err(SpawnParticleError::OutOfBounds));
    assert_eq!(world.spawn_particle(grain(0, 0, 1)), Ok(()));
    assert_eq!(world.spawn_particle(grain(0, 0, 2)), Err(SpawnParticleError::Conflict));
    for x in 1..4 {
        assert_eq!(world.spawn_particle(grain(x, 0, 3)), Ok(()));
    }
    assert_eq!(world.spawn_particle(grain(0, 1, 4)), Ok(()));
    assert_eq!(world.spawn_particle(grain(1, 1, 5)), Err(SpawnParticleError::Other));
    assert_eq!(world.get_particle_at(I16Vec2::new(0, 0)), Ok(Some(grain(0, 0, 1))));
}

#[test]
fn kill_undoes_spawn() {
    let mut world = World::new();
    let g = grain(3, 2, 11);
    world.spawn_particle(g).unwrap();
    assert_eq!(world.kill_particle_at(I16Vec2::new(3, 2)), Ok(g));
    assert_eq!(world.get_particle_at(I16Vec2::new(3, 2)), Ok(None));
    assert_eq!(world.kill_particle_at(I16Vec2::new(3, 2)), Err(KillParticleError::NothingThere));
    assert_eq!(world.kill_particle_at(I16Vec2::new(0, 3)), Err(KillParticleError::OutOfBounds));
    assert_eq!(world.spawn_particle(g), Ok(()));
}

#[test]
fn swap_moves_particles_and_updates_their_cells() {
    let mut world = World::new();
    world.spawn_particle(grain(0, 0, 1)).unwrap();
    world.spawn_particle(grain(1, 0, 2)).unwrap();
    assert_eq!(world.swap_particles(I16Vec2::new(0, 0), I16Vec2::new(1, 0)), Ok(()));
    assert_eq!(world.get_particle_at(I16Vec2::new(0, 0)), Ok(Some(grain(0, 0, 2))));
    assert_eq!(world.get_particle_at(I16Vec2::new(1, 0)), Ok(Some(grain(1, 0, 1))));
    assert_eq!(world.swap_particles(I16Vec2::new(1, 0), I16Vec2::new(2, 2)), Ok(()));
    assert_eq!(world.get_particle_at(I16Vec2::new(1, 0)), Ok(None));
    assert_eq!(world.get_particle_at(I16Vec2::new(2, 2)), Ok(Some(grain(2, 2, 1))));
    assert_eq!(world.swap_particles(I16Vec2::new(2, 2), I16Vec2::new(2, 2)), Ok(()));
    assert_eq!(world.get_particle_at(I16Vec2::new(2, 2)), Ok(Some(grain(2, 2, 1))));
}

#[test]
fn swap_errors_change_nothing() {
    let mut world = World::new();
    world.spawn_particle(grain(0, 0, 1)).unwrap();
    assert_eq!(world.swap_particles(I16Vec2::new(0, 0), I16Vec2::new(-1, 0)), Err(WorldOutOfBoundsError));
    assert_eq!(world.swap_particles(I16Vec2::new(0, 0), I16Vec2::new(4, 0)), Err(WorldOutOfBoundsError));
    assert_eq!(world.swap_particles(I16Vec2::new(0, 3), I16Vec2::new(0, 0)), Err(WorldOutOfBoundsError));
    assert_eq!(world.get_particle_at(I16Vec2::new(0, 0)), Ok(Some(grain(0, 0, 1))));
}

#[test]
fn particle_mut_reaches_a_particle_by_slot() {
    let mut world = World::new();
    world.spawn_particle(grain(1, 1, 5)).unwrap();
    // The first spawn takes the last slot of the fresh free list.
    let p = world.particle_mut(4).unwrap();
    p.tag = 6;
    assert_eq!(world.get_particle_at(I16Vec2::new(1, 1)), Ok(Some(grain(1, 1, 6))));
    assert!(world.particle_mut(0).is_none());
}

#[test]
fn swap_twice_puts_every_particle_back() {
    let mut world = World::new();
    world.spawn_particle(grain(0, 0, 1)).unwrap();
    world.spawn_particle(grain(2, 1, 2)).unwrap();
    world.spawn_particle(grain(3, 2, 3)).unwrap();
    let a = I16Vec2::new(0, 0);
    let b = I16Vec2::new(2, 1);
    world.swap_particles(a, b).unwrap();
    world.swap_particles(a, b).unwrap();
    assert_eq!(world.get_particle_at(a), Ok(Some(grain(0, 0, 1))));
    assert_eq!(world.get_particle_at(b), Ok(Some(grain(2, 1, 2))));
    assert_eq!(world.get_particle_at(I16Vec2::new(3, 2)), Ok(Some(grain(3, 2, 3))));
}

#[test]
fn swap_into_an_empty_cell_moves_the_particle() {
    let mut world = World::new();
    world.spawn_particle(grain(1, 2, 9)).unwrap();
    world.swap_particles(I16Vec2::new(3, 0), I16Vec2::new(1, 2)).unwrap();
    assert_eq!(world.get_particle_at(I16Vec2::new(3, 0)), Ok(Some(grain(3, 0, 9))));
    assert_eq!(world.get_particle_at(I16Vec2::new(1, 2)), Ok(None));
}

#[test]
fn at_most_max_particles_cells_are_occupied() {
    let mut world = World::new();
    let mut spawned = 0;
    for y in 0..3 {
        for x in 0..4 {
            if world.spawn_particle(grain(x, y, 0)).is_ok() {
                spawned += 1;
            }
        }
    }
    assert_eq!(spawned, 5);
    let mut occupied = 0;
    for y in 0..3 {
        for x in 0..4 {
            if let Ok(Some(p)) = world.get_particle_at(I16Vec2::new(x, y)) {
                assert_eq!(p.slot_pos(), I16Vec2::new(x, y));
                occupied += 1;
            }
        }
    }
    assert_eq!(occupied, 5);
    world.kill_particle_at(I16Vec2::new(0, 0)).unwrap();
    assert_eq!(world.spawn_particle(grain(3, 2, 0)), Ok(()));
    assert_eq!(world.spawn_particle(grain(2, 2, 0)), Err(SpawnParticleError::Other));
}

#[test]
fn kill_frees_the_slot_that_the_next_spawn_takes() {
    let mut world = World::new();
    world.spawn_particle(grain(0, 0, 1)).unwrap();
    world.spawn_particle(grain(1, 0, 2)).unwrap();
    // The fresh free list is 0..5, taken from its end.
    assert_eq!(world.particle_mut(4).map(|p| p.tag), Some(1));
    assert_eq!(world.particle_mut(3).map(|p| p.tag), Some(2));
    assert_eq!(world.kill_particle_at(I16Vec2::new(0, 0)), Ok(grain(0, 0, 1)));
    assert!(world.particle_mut(4).is_none());
    world.spawn_particle(grain(2, 2, 3)).unwrap();
    assert_eq!(world.particle_mut(4).map(|p| p.tag), Some(3));
}
