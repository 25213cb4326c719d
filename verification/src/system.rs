//! The ring allocator: a sequence of fixed-capacity particle buffers, a
//! pending-spawn queue, and a write cursor. Each render tick drains the
//! queue into buffer slots in ring order and emits one draw command per
//! buffer that may still hold live particles.

use vstd::prelude::*;

use crate::particle::{zero_particle, Particle};

verus! {

/// One fixed-capacity slot array together with its cached liveness summary.
pub struct Buffer {
    /// The slot array; always exactly the system's buffer capacity long.
    slots: Vec<Particle>,
    /// Latest expiry instant among particles written into this buffer;
    /// the buffer's draw call can be skipped once this is in the past.
    max_death_time: u64,
}

/// A command for the caller-owned command recorder. The manager only decides
/// what to record; executing the commands against a graphics device is the
/// caller's concern.
#[derive(Clone, PartialEq, Eq, Debug)]
pub enum Command {
    /// Overwrite `particles.len()` slots of buffer `buffer_index`, starting
    /// at slot `offset`.
    Update { buffer_index: usize, offset: usize, particles: Vec<Particle> },
    /// Draw the full slot range of buffer `buffer_index`.
    Draw { buffer_index: usize },
}

/// The mathematical image of a `Command`.
pub ghost enum CommandModel {
    Update { buffer_index: int, offset: int, particles: Seq<Particle> },
    Draw { buffer_index: int },
}

impl View for Command {
    type V = CommandModel;

    open spec fn view(&self) -> CommandModel {
        match self {
            Command::Update { buffer_index, offset, particles } => CommandModel::Update {
                buffer_index: *buffer_index as int,
                offset: *offset as int,
                particles: particles@,
            },
            Command::Draw { buffer_index } => CommandModel::Draw {
                buffer_index: *buffer_index as int,
            },
        }
    }
}

/// The images of a sequence of commands.
pub open spec fn command_views(commands: Seq<Command>) -> Seq<CommandModel> {
    commands.map_values(|c: Command| c@)
}

/// The mathematical image of the allocation state: slot contents, cached
/// death times, and the write cursor. The pending queue is kept separate.
pub ghost struct Model {
    /// Capacity of every buffer.
    pub cap: int,
    /// Slot contents of each buffer, in ring order.
    pub slots: Seq<Seq<Particle>>,
    /// Cached latest expiry instant of each buffer.
    pub deaths: Seq<int>,
    /// Buffer holding the next free slot.
    pub cursor_buffer: int,
    /// Slot offset of the next free slot within that buffer.
    pub cursor_slot: int,
}

impl Model {
    /// Structural soundness: at least one buffer, every buffer exactly
    /// `cap` slots long, one cached death time per buffer, and the cursor
    /// inside bounds.
    pub open spec fn wf(self) -> bool {
        &&& self.cap >= 1
        &&& self.slots.len() >= 1
        &&& self.deaths.len() == self.slots.len()
        &&& (forall|i: int|
            0 <= i < self.slots.len() ==> (#[trigger] self.slots[i]).len() == self.cap)
        &&& 0 <= self.cursor_buffer < self.slots.len()
        &&& 0 <= self.cursor_slot < self.cap
    }

    /// The state after writing one particle into the slot under the cursor:
    /// the slot is overwritten, the buffer's cached death time is raised to
    /// cover the particle, and the cursor advances one slot in ring order.
    pub open spec fn write_one(self, p: Particle) -> Model {
        let b = self.cursor_buffer;
        let s = self.cursor_slot;
        let raised = if p.death_time() > self.deaths[b] {
            p.death_time()
        } else {
            self.deaths[b]
        };
        Model {
            cap: self.cap,
            slots: self.slots.update(b, self.slots[b].update(s, p)),
            deaths: self.deaths.update(b, raised),
            cursor_buffer: if s + 1 == self.cap {
                if b + 1 == self.slots.len() {
                    0
                } else {
                    b + 1
                }
            } else {
                b
            },
            cursor_slot: if s + 1 == self.cap {
                0
            } else {
                s + 1
            },
        }
    }

    /// The state after draining `pending` in order, one slot per particle.
    pub open spec fn flush(self, pending: Seq<Particle>) -> Model
        decreases pending.len(),
    {
        if pending.len() == 0 {
            self
        } else {
            self.write_one(pending[0]).flush(pending.drop_first())
        }
    }

    /// The buffer-update commands that draining `pending` emits: one command
    /// per contiguous run, each run as large as fits in the free slots left
    /// in the buffer under the cursor.
    pub open spec fn update_commands(self, pending: Seq<Particle>) -> Seq<CommandModel>
        decreases pending.len(),
    {
        if pending.len() == 0 || !self.wf() {
            Seq::<CommandModel>::empty()
        } else {
            let room = self.cap - self.cursor_slot;
            let n = if room < pending.len() {
                room
            } else {
                pending.len() as int
            };
            seq![
                CommandModel::Update {
                    buffer_index: self.cursor_buffer,
                    offset: self.cursor_slot,
                    particles: pending.take(n),
                },
            ] + self.flush(pending.take(n)).update_commands(pending.skip(n))
        }
    }
}

/// The draw commands for buffers with cached death times `deaths` at tick
/// `now`, in buffer order: one per buffer whose cached death time lies in
/// the future, none for the rest.
pub open spec fn draw_commands(deaths: Seq<int>, now: int) -> Seq<CommandModel>
    decreases deaths.len(),
{
    if deaths.len() == 0 {
        Seq::<CommandModel>::empty()
    } else {
        draw_commands(deaths.drop_last(), now) + if deaths.last() > now {
            seq![CommandModel::Draw { buffer_index: deaths.len() - 1 }]
        } else {
            Seq::<CommandModel>::empty()
        }
    }
}

/// Draining a queue with one more particle at its end first drains the
/// shorter queue, then writes the extra particle.
pub proof fn lemma_flush_push(m: Model, pending: Seq<Particle>, p: Particle)
    ensures
        m.flush(pending.push(p)) == m.flush(pending).write_one(p),
    decreases pending.len(),
{
    if pending.len() == 0 {
        let empty = Seq::<Particle>::empty();
        assert(m.flush(pending) == m);
        assert(pending.push(p)[0] == p);
        assert(pending.push(p).drop_first() =~= empty);
        assert(m.write_one(p).flush(empty) == m.write_one(p));
        assert(m.flush(pending.push(p)) == m.write_one(p).flush(empty));
    } else {
        assert(pending.push(p)[0] == pending[0]);
        assert(pending.push(p).drop_first() =~= pending.drop_first().push(p));
        lemma_flush_push(m.write_one(pending[0]), pending.drop_first(), p);
        assert(m.flush(pending.push(p)) == m.write_one(pending[0]).flush(
            pending.drop_first().push(p),
        ));
        assert(m.flush(pending) == m.write_one(pending[0]).flush(pending.drop_first()));
    }
}

/// Draining a concatenation drains the first part, then the second.
pub proof fn lemma_flush_append(m: Model, first: Seq<Particle>, second: Seq<Particle>)
    ensures
        m.flush(first + second) == m.flush(first).flush(second),
    decreases first.len(),
{
    if first.len() == 0 {
        assert(first + second =~= second);
    } else {
        assert((first + second)[0] == first[0]);
        assert((first + second).drop_first() =~= first.drop_first() + second);
        lemma_flush_append(m.write_one(first[0]), first.drop_first(), second);
    }
}

/// The state of a freshly constructed system: `count` buffers of `cap`
/// zeroed slots each, zero death times, and the cursor at the start of the
/// ring.
pub open spec fn fresh_model(cap: int, count: int) -> Model {
    Model {
        cap,
        slots: Seq::new(count as nat, |i: int| Seq::new(cap as nat, |j: int| zero_particle())),
        deaths: Seq::new(count as nat, |i: int| 0),
        cursor_buffer: 0,
        cursor_slot: 0,
    }
}

/// Manages a ring of particle buffers and renders the particles in them.
pub struct ParticleSystem {
    /// Capacity of every buffer.
    buffer_size: usize,
    /// Ring of particle buffers.
    buffers: Vec<Buffer>,
    /// Particles queued for insertion with the next render call.
    new_particles: Vec<Particle>,
    /// Cursor: buffer holding the next free slot.
    next_buffer: usize,
    /// Cursor: slot offset of the next free slot within that buffer.
    next_slot: usize,
}

impl ParticleSystem {
    /// The mathematical image of the allocation state.
    pub closed spec fn model(self) -> Model {
        Model {
            cap: self.buffer_size as int,
            slots: self.buffers@.map_values(|b: Buffer| b.slots@),
            deaths: self.buffers@.map_values(|b: Buffer| b.max_death_time as int),
            cursor_buffer: self.next_buffer as int,
            cursor_slot: self.next_slot as int,
        }
    }

    /// The pending-spawn queue, oldest first.
    pub closed spec fn pending(self) -> Seq<Particle> {
        self.new_particles@
    }

    /// A system is well-formed when its allocation state is.
    pub closed spec fn wf(self) -> bool {
        self.model().wf()
    }

    /// Creates a system of `num_initial_buffers` buffers, each with
    /// `buffer_size` zeroed slots, an empty pending queue, and the cursor at
    /// the start of the ring. A system cannot be built without at least one
    /// buffer of at least one slot.
    pub fn new(buffer_size: usize, num_initial_buffers: usize) -> (system: ParticleSystem)
        requires
            buffer_size >= 1,
            num_initial_buffers >= 1,
        ensures
            system.wf(),
            system.model() == fresh_model(buffer_size as int, num_initial_buffers as int),
            system.pending() == Seq::<Particle>::empty(),
    {
        let mut system = ParticleSystem {
            buffer_size,
            buffers: Vec::new(),
            new_particles: Vec::new(),
            next_buffer: 0,
            next_slot: 0,
        };
        let mut k: usize = 0;
        while k < num_initial_buffers
            invariant
                k <= num_initial_buffers,
                buffer_size >= 1,
                system.buffer_size == buffer_size,
                system.model().slots =~= fresh_model(buffer_size as int, k as int).slots,
                system.model().deaths =~= fresh_model(buffer_size as int, k as int).deaths,
                system.next_buffer == 0,
                system.next_slot == 0,
                system.pending() == Seq::<Particle>::empty(),
            decreases num_initial_buffers - k,
        {
            system.new_buffer();
            k = k + 1;
            proof {
                let cap = buffer_size as int;
                assert(system.model().slots =~= fresh_model(cap, k as int).slots);
                assert(system.model().deaths =~= fresh_model(cap, k as int).deaths);
            }
        }
        proof {
            assert(system.model() == fresh_model(buffer_size as int, num_initial_buffers as int));
        }
        system
    }

    /// Queues one particle for insertion with the next render call. The
    /// allocation state is untouched; the particle is appended to the
    /// pending queue.
    pub fn spawn(&mut self, particle: &Particle)
        ensures
            final(self).model() == old(self).model(),
            final(self).wf() <==> old(self).wf(),
            final(self).pending() == old(self).pending().push(*particle),
    {
        self.new_particles.push(*particle);
    }

    /// Renders one tick. First the pending queue is drained into the ring:
    /// contiguous runs of pending particles are copied into the buffer under
    /// the cursor, as many as fit in its remaining free slots, raising that
    /// buffer's cached death time and advancing the cursor in ring order;
    /// one buffer-update command is issued per run. Then one draw command is
    /// issued for each buffer, in index order, whose cached death time lies
    /// after `current_time`; the other buffers hold only expired particles
    /// and are skipped. The commands are returned for the caller to record;
    /// if more particles are pending than the ring holds, later particles
    /// overwrite earlier ones of the same call as the cursor wraps.
    #[verifier::loop_isolation(false)]
    pub fn render(&mut self, current_time: u64) -> (commands: Vec<Command>)
        requires
            old(self).wf(),
        ensures
            final(self).wf(),
            final(self).model() == old(self).model().flush(old(self).pending()),
            final(self).pending() == Seq::<Particle>::empty(),
            command_views(commands@) == old(self).model().update_commands(old(self).pending())
                + draw_commands(final(self).model().deaths, current_time as int),
    {
        let ghost m0 = self.model();
        let ghost q = self.pending();
        let mut commands: Vec<Command> = Vec::new();
        proof {
            assert(q.skip(0) =~= q);
            assert(command_views(commands@) =~= Seq::<CommandModel>::empty());
            assert(command_views(commands@) + m0.update_commands(q) =~= m0.update_commands(q));
        }

        // Phase A: drain the queue into the ring, one run at a time.
        let mut i: usize = 0;
        while i < self.new_particles.len()
            invariant
                self.wf(),
                i <= self.new_particles.len(),
                self.new_particles@ == q,
                m0.flush(q) == self.model().flush(q.skip(i as int)),
                m0.update_commands(q) == command_views(commands@) + self.model().update_commands(
                    q.skip(i as int),
                ),
            decreases q.len() - i,
        {
            let ghost i0 = i as int;
            let ghost mi = self.model();
            let ghost cmds0 = commands@;

            let b = self.next_buffer;
            let s0 = self.next_slot;
            assert(s0 < self.buffer_size);
            let room = self.buffer_size - s0;
            let rem = self.new_particles.len() - i;
            let n = if room < rem {
                room
            } else {
                rem
            };
            let ghost run_seq = q.subrange(i0, i0 + n as int);

            let mut run: Vec<Particle> = Vec::new();
            let mut j: usize = 0;
            while j < n
                invariant
                    j <= n,
                    self.wf(),
                    self.new_particles@ == q,
                    run@ == q.subrange(i0, i0 + j as int),
                    self.model() == mi.flush(q.subrange(i0, i0 + j as int)),
                decreases n - j,
            {
                let p = self.new_particles[i + j];
                let ghost mj = self.model();
                let cb = self.next_buffer;
                let cs = self.next_slot;
                proof {
                    assert(cb < self.buffers@.len());
                    assert(self.model().slots[cb as int] == self.buffers@[cb as int].slots@);
                    assert(self.buffers@[cb as int].slots@.len() == self.model().cap);
                    assert(cs < self.buffer_size);
                }
                self.buffers[cb].slots[cs] = p;
                let d = p.death();
                if d > self.buffers[cb].max_death_time {
                    self.buffers[cb].max_death_time = d;
                }
                if cs + 1 == self.buffer_size {
                    let num_buffers = self.buffers.len();
                    assert(cb < num_buffers);
                    self.next_slot = 0;
                    self.next_buffer = if cb + 1 == num_buffers {
                        0
                    } else {
                        cb + 1
                    };
                } else {
                    self.next_slot = cs + 1;
                }
                run.push(p);
                j = j + 1;
                proof {
                    let raised = if p.death_time() > mj.deaths[cb as int] {
                        p.death_time()
                    } else {
                        mj.deaths[cb as int]
                    };
                    assert(self.model().slots =~= mj.slots.update(
                        cb as int,
                        mj.slots[cb as int].update(cs as int, p),
                    ));
                    assert(self.model().deaths =~= mj.deaths.update(cb as int, raised));
                    assert(self.model() == mj.write_one(p));
                    assert(q.subrange(i0, i0 + j as int) =~= q.subrange(
                        i0,
                        i0 + j as int - 1,
                    ).push(p));
                    lemma_flush_push(mi, q.subrange(i0, i0 + j as int - 1), p);
                }
            }
            commands.push(Command::Update { buffer_index: b, offset: s0, particles: run });
            i = i + n;
            proof {
                let now_i = i as int;
                let pend = q.skip(i0);
                let rest = q.skip(now_i);
                let update_view = CommandModel::Update {
                    buffer_index: b as int,
                    offset: s0 as int,
                    particles: run_seq,
                };
                assert(pend.take(n as int) =~= run_seq);
                assert(pend.skip(n as int) =~= rest);
                assert(pend =~= run_seq + rest);
                lemma_flush_append(mi, run_seq, rest);
                assert(mi.update_commands(pend) == seq![update_view] + mi.flush(
                    run_seq,
                ).update_commands(rest));
                assert(command_views(commands@) =~= command_views(cmds0).push(update_view));
                assert((command_views(cmds0) + seq![update_view]) + mi.flush(
                    run_seq,
                ).update_commands(rest) =~= command_views(cmds0) + (seq![update_view] + mi.flush(
                    run_seq,
                ).update_commands(rest)));
                assert(command_views(commands@) =~= command_views(cmds0) + seq![update_view]);
                assert(m0.update_commands(q) == command_views(commands@)
                    + self.model().update_commands(rest));
                assert(m0.flush(q) == self.model().flush(rest));
            }
        }
        proof {
            assert(q.skip(q.len() as int) =~= Seq::<Particle>::empty());
            assert(self.model().flush(Seq::<Particle>::empty()) == self.model());
            assert(self.model().update_commands(Seq::<Particle>::empty())
                == Seq::<CommandModel>::empty());
            assert(m0.update_commands(q) =~= command_views(commands@));
            assert(m0.flush(q) == self.model());
        }
        self.new_particles.clear();

        // Phase B: issue one draw command per buffer that may still hold
        // live particles.
        let ghost mf = self.model();
        let ghost cmds_a = commands@;
        let num = self.buffers.len();
        let mut k: usize = 0;
        while k < num
            invariant
                k <= num,
                command_views(commands@) == command_views(cmds_a) + draw_commands(
                    mf.deaths.take(k as int),
                    current_time as int,
                ),
            decreases num - k,
        {
            let ghost cmds_b = commands@;
            if self.buffers[k].max_death_time > current_time {
                commands.push(Command::Draw { buffer_index: k });
            }
            k = k + 1;
            proof {
                let kk = k as int;
                let now = current_time as int;
                assert(mf.deaths.take(kk).drop_last() =~= mf.deaths.take(kk - 1));
                assert(mf.deaths.take(kk).last() == mf.deaths[kk - 1]);
                if mf.deaths[kk - 1] > now {
                    assert(command_views(commands@) =~= command_views(cmds_b).push(
                        CommandModel::Draw { buffer_index: kk - 1 },
                    ));
                    assert(command_views(commands@) =~= command_views(cmds_a) + (draw_commands(
                        mf.deaths.take(kk - 1),
                        now,
                    ) + seq![CommandModel::Draw { buffer_index: kk - 1 }]));
                } else {
                    assert(draw_commands(mf.deaths.take(kk), now) =~= draw_commands(
                        mf.deaths.take(kk - 1),
                        now,
                    ));
                }
            }
        }
        proof {
            assert(mf.deaths.take(num as int) =~= mf.deaths);
        }
        commands
    }

    /// Number of buffers in the ring.
    pub fn buffer_count(&self) -> (n: usize)
        ensures
            n == self.model().slots.len(),
    {
        self.buffers.len()
    }

    /// Capacity of each buffer.
    pub fn buffer_capacity(&self) -> (c: usize)
        ensures
            c as int == self.model().cap,
    {
        self.buffer_size
    }

    /// The write cursor: index of the buffer holding the next free slot,
    /// and the slot's offset within that buffer.
    pub fn cursor(&self) -> (cur: (usize, usize))
        ensures
            cur.0 as int == self.model().cursor_buffer,
            cur.1 as int == self.model().cursor_slot,
    {
        (self.next_buffer, self.next_slot)
    }

    /// Number of particles waiting in the pending queue.
    pub fn pending_len(&self) -> (n: usize)
        ensures
            n == self.pending().len(),
    {
        self.new_particles.len()
    }

    /// The cached death time of buffer `buffer_index`.
    pub fn buffer_max_death_time(&self, buffer_index: usize) -> (d: u64)
        requires
            buffer_index < self.model().slots.len(),
        ensures
            d as int == self.model().deaths[buffer_index as int],
    {
        self.buffers[buffer_index].max_death_time
    }

    /// The particle record held in slot `slot` of buffer `buffer_index`.
    pub fn particle_at(&self, buffer_index: usize, slot: usize) -> (p: Particle)
        requires
            self.wf(),
            buffer_index < self.model().slots.len(),
            slot < self.model().cap,
        ensures
            p == self.model().slots[buffer_index as int][slot as int],
    {
        proof {
            assert(self.model().slots[buffer_index as int]
                == self.buffers@[buffer_index as int].slots@);
            assert(self.model().slots[buffer_index as int].len() == self.model().cap);
        }
        self.buffers[buffer_index].slots[slot]
    }

    /// Appends one fresh buffer to the ring: `buffer_size` zeroed slots and
    /// a zero death time. The cursor and the pending queue are untouched.
    fn new_buffer(&mut self)
        ensures
            final(self).buffer_size == old(self).buffer_size,
            final(self).model().slots == old(self).model().slots.push(
                Seq::new(old(self).buffer_size as nat, |j: int| zero_particle()),
            ),
            final(self).model().deaths == old(self).model().deaths.push(0),
            final(self).next_buffer == old(self).next_buffer,
            final(self).next_slot == old(self).next_slot,
            final(self).pending() == old(self).pending(),
    {
        let cap = self.buffer_size;
        let mut slots: Vec<Particle> = Vec::new();
        let mut k: usize = 0;
        while k < cap
            invariant
                k <= cap,
                slots@ =~= Seq::new(k as nat, |j: int| zero_particle()),
            decreases cap - k,
        {
            slots.push(Particle::default());
            k = k + 1;
            proof {
                assert(slots@ =~= Seq::new(k as nat, |j: int| zero_particle()));
            }
        }
        self.buffers.push(Buffer { slots, max_death_time: 0 });
        proof {
            assert(self.model().slots =~= old(self).model().slots.push(
                Seq::new(old(self).buffer_size as nat, |j: int| zero_particle()),
            ));
            assert(self.model().deaths =~= old(self).model().deaths.push(0));
        }
    }
}

} // verus!
