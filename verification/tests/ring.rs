//! Behavioral tests of the ring allocator: construction, queueing, drains,
//! wraparound, liveness skipping, and the emitted command streams.

use particle_ring::{Command, Particle, ParticleSystem};

fn particle(spawn_time: u32, life_time: u32) -> Particle {
    Particle {
        spawn_time,
        life_time,
        ..Particle::default()
    }
}

#[test]
fn fresh_system_shape() {
    let system = ParticleSystem::new(4, 3);
    assert_eq!(system.buffer_count(), 3);
    assert_eq!(system.buffer_capacity(), 4);
    assert_eq!(system.cursor(), (0, 0));
    assert_eq!(system.pending_len(), 0);
    for b in 0..3 {
        assert_eq!(system.buffer_max_death_time(b), 0);
        for s in 0..4 {
            assert_eq!(system.particle_at(b, s), Particle::default());
        }
    }
}

#[test]
fn spawn_queues_without_touching_buffers() {
    let mut system = ParticleSystem::new(2, 1);
    system.spawn(&particle(1, 2));
    system.spawn(&particle(3, 4));
    assert_eq!(system.pending_len(), 2);
    assert_eq!(system.cursor(), (0, 0));
    assert_eq!(system.buffer_max_death_time(0), 0);
    assert_eq!(system.particle_at(0, 0), Particle::default());
}

#[test]
fn particle_death_is_spawn_plus_life() {
    assert_eq!(particle(3, 4).death(), 7);
    assert_eq!(particle(0, 0).death(), 0);
    // The sum is widened: it cannot overflow.
    assert_eq!(
        particle(u32::MAX, u32::MAX).death(),
        u32::MAX as u64 + u32::MAX as u64
    );
}

#[test]
fn wraparound_two_buffers_of_four() {
    // Five particles into a ring of two buffers with four slots each:
    // particles 0-3 fill buffer 0, particle 4 lands at buffer 1 slot 0,
    // and the cursor ends at (1, 1).
    let mut system = ParticleSystem::new(4, 2);
    let particles: Vec<Particle> = (0..5).map(|i| particle(i, 10)).collect();
    for p in &particles {
        system.spawn(p);
    }
    let commands = system.render(0);

    for s in 0..4 {
        assert_eq!(system.particle_at(0, s), particles[s]);
    }
    assert_eq!(system.particle_at(1, 0), particles[4]);
    assert_eq!(system.cursor(), (1, 1));
    assert_eq!(system.pending_len(), 0);

    // One update command per contiguous run, then the draws.
    match &commands[0] {
        Command::Update {
            buffer_index,
            offset,
            particles: run,
        } => {
            assert_eq!(*buffer_index, 0);
            assert_eq!(*offset, 0);
            assert_eq!(run.as_slice(), &particles[0..4]);
        }
        other => panic!("expected an update command, got {:?}", other),
    }
    match &commands[1] {
        Command::Update {
            buffer_index,
            offset,
            particles: run,
        } => {
            assert_eq!(*buffer_index, 1);
            assert_eq!(*offset, 0);
            assert_eq!(run.as_slice(), &particles[4..5]);
        }
        other => panic!("expected an update command, got {:?}", other),
    }
    // Both buffers hold particles dying at tick 10, after the current tick.
    assert_eq!(
        &commands[2..],
        &[
            Command::Draw { buffer_index: 0 },
            Command::Draw { buffer_index: 1 }
        ]
    );
}

#[test]
fn capacity_conservation_excess_wraps_to_start() {
    // Five particles into a ring of 2 x 2 = 4 slots: only four slots exist,
    // and the fifth particle overwrites slot (0, 0).
    let mut system = ParticleSystem::new(2, 2);
    let particles: Vec<Particle> = (0..5).map(|i| particle(i, 1)).collect();
    for p in &particles {
        system.spawn(p);
    }
    system.render(0);
    assert_eq!(system.particle_at(0, 0), particles[4]);
    assert_eq!(system.particle_at(0, 1), particles[1]);
    assert_eq!(system.particle_at(1, 0), particles[2]);
    assert_eq!(system.particle_at(1, 1), particles[3]);
    assert_eq!(system.cursor(), (0, 1));
}

#[test]
fn overflow_update_commands_wrap_to_start() {
    // Five particles over a 2 x 2 ring: three maximal runs, the last one
    // wrapped back to the start of buffer 0.
    let mut system = ParticleSystem::new(2, 2);
    let particles: Vec<Particle> = (0..5).map(|i| particle(i, 1)).collect();
    for p in &particles {
        system.spawn(p);
    }
    let commands = system.render(0);
    let runs: Vec<(usize, usize, &[Particle])> = commands
        .iter()
        .filter_map(|c| match c {
            Command::Update {
                buffer_index,
                offset,
                particles: run,
            } => Some((*buffer_index, *offset, run.as_slice())),
            Command::Draw { .. } => None,
        })
        .collect();
    assert_eq!(runs.len(), 3);
    assert_eq!(runs[0], (0, 0, &particles[0..2]));
    assert_eq!(runs[1], (1, 0, &particles[2..4]));
    assert_eq!(runs[2], (0, 0, &particles[4..5]));
}

#[test]
fn single_slot_ring_keeps_last_particle_and_max_death() {
    let mut system = ParticleSystem::new(1, 1);
    system.spawn(&particle(0, 30));
    system.spawn(&particle(0, 10));
    system.spawn(&particle(0, 20));
    system.render(0);
    // Every particle went through slot (0, 0); the last one remains.
    assert_eq!(system.particle_at(0, 0), particle(0, 20));
    assert_eq!(system.cursor(), (0, 0));
    // The cached death time covers every particle ever written.
    assert_eq!(system.buffer_max_death_time(0), 30);
}

#[test]
fn death_time_accumulates_across_fills() {
    // A long-lived particle is written, then the buffer is refilled with a
    // short-lived one: the cached death time must not drop.
    let mut system = ParticleSystem::new(2, 2);
    system.spawn(&particle(0, 100));
    system.render(0);
    assert_eq!(system.buffer_max_death_time(0), 100);
    system.spawn(&particle(0, 5));
    system.render(0);
    assert_eq!(system.buffer_max_death_time(0), 100);
}

#[test]
fn liveness_skip_draws_only_live_buffers() {
    let mut system = ParticleSystem::new(1, 2);
    // Buffer 0 gets a particle dying at tick 7; buffer 1 one dying at 20.
    system.spawn(&particle(3, 4));
    system.spawn(&particle(0, 20));
    let commands = system.render(0);
    assert_eq!(
        &commands[2..],
        &[
            Command::Draw { buffer_index: 0 },
            Command::Draw { buffer_index: 1 }
        ]
    );

    // Just before tick 7 buffer 0 must still be drawn...
    let commands = system.render(6);
    assert_eq!(
        commands,
        vec![
            Command::Draw { buffer_index: 0 },
            Command::Draw { buffer_index: 1 }
        ]
    );
    // ... and from tick 7 on it is skipped: drawn iff death time > now.
    let commands = system.render(7);
    assert_eq!(commands, vec![Command::Draw { buffer_index: 1 }]);
    let commands = system.render(20);
    assert_eq!(commands, Vec::new());
}

#[test]
fn zero_pending_render_issues_no_updates() {
    let mut system = ParticleSystem::new(4, 2);
    // Nothing pending, nothing live: no commands at all.
    assert_eq!(system.render(0), Vec::new());

    // Nothing pending but one live buffer: only that buffer's draw call.
    system.spawn(&particle(0, 9));
    system.render(0);
    let commands = system.render(3);
    assert_eq!(commands, vec![Command::Draw { buffer_index: 0 }]);
    // The allocation state is untouched by an empty drain.
    assert_eq!(system.cursor(), (0, 1));
    assert_eq!(system.buffer_max_death_time(0), 9);
}

#[test]
fn render_clears_the_queue_once_drained() {
    let mut system = ParticleSystem::new(4, 2);
    system.spawn(&particle(0, 1));
    system.spawn(&particle(0, 2));
    assert_eq!(system.pending_len(), 2);
    system.render(0);
    assert_eq!(system.pending_len(), 0);
    // A second render must not re-insert the drained particles.
    let commands = system.render(0);
    assert!(commands
        .iter()
        .all(|c| matches!(c, Command::Draw { .. })));
}

#[test]
fn partial_runs_continue_within_a_buffer() {
    let mut system = ParticleSystem::new(4, 2);
    system.spawn(&particle(0, 1));
    system.spawn(&particle(1, 1));
    system.render(0);
    assert_eq!(system.cursor(), (0, 2));
    // The next drain continues at slot 2 of buffer 0.
    system.spawn(&particle(2, 1));
    let commands = system.render(0);
    match &commands[0] {
        Command::Update {
            buffer_index,
            offset,
            particles: run,
        } => {
            assert_eq!(*buffer_index, 0);
            assert_eq!(*offset, 2);
            assert_eq!(run.len(), 1);
        }
        other => panic!("expected an update command, got {:?}", other),
    }
    assert_eq!(system.particle_at(0, 0), particle(0, 1));
    assert_eq!(system.particle_at(0, 1), particle(1, 1));
    assert_eq!(system.particle_at(0, 2), particle(2, 1));
    assert_eq!(system.cursor(), (0, 3));
}
