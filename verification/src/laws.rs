//! Laws of the ring allocator: how a drain moves the cursor, which slots it
//! writes, and when a buffer's draw call may be skipped, stated over the
//! mathematical model for every state and pending queue.

use vstd::prelude::*;

use vstd::arithmetic::div_mod::{
    lemma_add_mod_noop_right, lemma_mod_add_multiples_vanish, lemma_mod_equivalence,
    lemma_mod_self_0, lemma_small_mod,
};

use vstd::seq_lib::lemma_seq_concat_contains_all_elements;

use crate::particle::Particle;
use crate::system::{draw_commands, lemma_flush_append, lemma_flush_push, CommandModel, Model};

verus! {

/// Number of slots in the whole ring.
pub open spec fn ring_size(m: Model) -> int {
    m.slots.len() * m.cap
}

/// The cursor as one linear slot position in ring order: slots of buffer 0
/// first, then buffer 1, and so on.
pub open spec fn linear_cursor(m: Model) -> int {
    m.cursor_buffer * m.cap + m.cursor_slot
}

/// Writing one particle preserves well-formedness and the ring's shape, and
/// advances the cursor by exactly one slot in ring order.
pub proof fn lemma_write_one_step(m: Model, p: Particle)
    requires
        m.wf(),
    ensures
        m.write_one(p).wf(),
        m.write_one(p).cap == m.cap,
        m.write_one(p).slots.len() == m.slots.len(),
        m.write_one(p).deaths.len() == m.deaths.len(),
        ring_size(m.write_one(p)) == ring_size(m),
        linear_cursor(m.write_one(p)) == (linear_cursor(m) + 1) % ring_size(m),
{
    let n = m.slots.len() as int;
    let c = m.cap;
    let b = m.cursor_buffer;
    let s = m.cursor_slot;
    let t = ring_size(m);
    let lin = linear_cursor(m);
    let m1 = m.write_one(p);
    assert(0 <= lin && lin + 1 <= t) by (nonlinear_arith)
        requires
            0 <= b < n,
            0 <= s < c,
            1 <= c,
            lin == b * c + s,
            t == n * c,
    ;
    assert forall|i: int| 0 <= i < m1.slots.len() implies (#[trigger] m1.slots[i]).len()
        == c by {
        if i == b {
            assert(m1.slots[i] == m.slots[b].update(s, p));
        }
    }
    if s + 1 == c {
        if b + 1 == n {
            assert(lin + 1 == t) by (nonlinear_arith)
                requires
                    lin == b * c + s,
                    t == n * c,
                    s + 1 == c,
                    b + 1 == n,
            ;
            lemma_mod_self_0(t);
            assert(linear_cursor(m1) == 0);
        } else {
            assert(linear_cursor(m1) == (b + 1) * c);
            assert((b + 1) * c == lin + 1) by (nonlinear_arith)
                requires
                    lin == b * c + s,
                    s + 1 == c,
            ;
            assert(lin + 1 < t) by (nonlinear_arith)
                requires
                    lin + 1 == (b + 1) * c,
                    t == n * c,
                    b + 1 < n,
                    c >= 1,
            ;
            lemma_small_mod((lin + 1) as nat, t as nat);
        }
    } else {
        assert(linear_cursor(m1) == lin + 1);
        assert(lin + 1 < t) by (nonlinear_arith)
            requires
                0 <= b < n,
                0 <= s,
                s + 1 < c,
                lin == b * c + s,
                t == n * c,
        ;
        lemma_small_mod((lin + 1) as nat, t as nat);
    }
}

/// Draining preserves well-formedness and the ring's shape; the cursor ends
/// `pending.len()` slots further along, in ring order, wrapping as needed.
pub proof fn lemma_flush_cursor(m: Model, pending: Seq<Particle>)
    requires
        m.wf(),
    ensures
        m.flush(pending).wf(),
        m.flush(pending).cap == m.cap,
        m.flush(pending).slots.len() == m.slots.len(),
        m.flush(pending).deaths.len() == m.deaths.len(),
        linear_cursor(m.flush(pending)) == (linear_cursor(m) + pending.len()) % ring_size(m),
    decreases pending.len(),
{
    let t = ring_size(m);
    let lin = linear_cursor(m);
    assert(t >= 1) by (nonlinear_arith)
        requires
            m.slots.len() >= 1,
            m.cap >= 1,
            t == m.slots.len() * m.cap,
    ;
    if pending.len() == 0 {
        assert(0 <= lin < t) by (nonlinear_arith)
            requires
                0 <= m.cursor_buffer < m.slots.len(),
                0 <= m.cursor_slot < m.cap,
                lin == m.cursor_buffer * m.cap + m.cursor_slot,
                t == m.slots.len() * m.cap,
        ;
        lemma_small_mod(lin as nat, t as nat);
    } else {
        let m1 = m.write_one(pending[0]);
        lemma_write_one_step(m, pending[0]);
        lemma_flush_cursor(m1, pending.drop_first());
        assert(ring_size(m1) == t);
        let rest = pending.len() - 1;
        assert(linear_cursor(m.flush(pending)) == ((lin + 1) % t + rest) % t);
        lemma_add_mod_noop_right(rest, lin + 1, t);
        assert((rest + (lin + 1) % t) % t == (rest + (lin + 1)) % t);
    }
}

/// Cursor monotonicity within one call: so long as the pending queue does
/// not exceed the ring's total capacity, the cursor never revisits a
/// (buffer, slot) pair it has already written during that drain.
pub proof fn lemma_cursor_monotonic(m: Model, pending: Seq<Particle>, j: int, k: int)
    requires
        m.wf(),
        pending.len() <= ring_size(m),
        0 <= j < k < pending.len(),
    ensures
        !(m.flush(pending.take(j)).cursor_buffer == m.flush(pending.take(k)).cursor_buffer
            && m.flush(pending.take(j)).cursor_slot == m.flush(pending.take(k)).cursor_slot),
{
    let t = ring_size(m);
    let lin = linear_cursor(m);
    let mj = m.flush(pending.take(j));
    let mk = m.flush(pending.take(k));
    lemma_flush_cursor(m, pending.take(j));
    lemma_flush_cursor(m, pending.take(k));
    assert(t >= 1) by (nonlinear_arith)
        requires
            m.slots.len() >= 1,
            m.cap >= 1,
            t == m.slots.len() * m.cap,
    ;
    if mj.cursor_buffer == mk.cursor_buffer && mj.cursor_slot == mk.cursor_slot {
        assert(linear_cursor(mj) == linear_cursor(mk));
        assert((lin + j) % t == (lin + k) % t);
        lemma_mod_equivalence(lin + j, lin + k, t);
        assert(((lin + j) - (lin + k)) % t == 0);
        assert((j - k) % t == 0);
        lemma_mod_add_multiples_vanish(j - k, t);
        assert((t + (j - k)) % t == 0);
        assert(0 < t + (j - k) < t);
        lemma_small_mod((t + (j - k)) as nat, t as nat);
        assert(false);
    }
}

/// Draining never lowers any buffer's cached death time: it accumulates
/// across fills instead of being reset.
pub proof fn lemma_flush_deaths_monotone(m: Model, pending: Seq<Particle>, b: int)
    requires
        m.wf(),
        0 <= b < m.deaths.len(),
    ensures
        m.flush(pending).deaths.len() == m.deaths.len(),
        m.flush(pending).deaths[b] >= m.deaths[b],
    decreases pending.len(),
{
    if pending.len() > 0 {
        let m1 = m.write_one(pending[0]);
        lemma_write_one_step(m, pending[0]);
        assert(m1.deaths[b] >= m.deaths[b]);
        lemma_flush_deaths_monotone(m1, pending.drop_first(), b);
    }
}

/// Liveness coverage: after a drain, the buffer that received the `k`-th
/// pending particle caches a death time at least that particle's expiry
/// instant, so the buffer is not skipped at any earlier tick.
pub proof fn lemma_written_particle_keeps_buffer_live(m: Model, pending: Seq<Particle>, k: int)
    requires
        m.wf(),
        0 <= k < pending.len(),
    ensures
        0 <= m.flush(pending.take(k)).cursor_buffer < m.flush(pending).deaths.len(),
        m.flush(pending).deaths[m.flush(pending.take(k)).cursor_buffer]
            >= pending[k].death_time(),
{
    let mk = m.flush(pending.take(k));
    lemma_flush_cursor(m, pending.take(k));
    let b = mk.cursor_buffer;
    let p = pending[k];
    let m2 = mk.write_one(p);
    assert(m2.deaths[b] >= p.death_time());
    assert(pending.take(k + 1) =~= pending.take(k).push(p));
    lemma_flush_push(m, pending.take(k), p);
    assert(m.flush(pending.take(k + 1)) == m2);
    assert(pending =~= pending.take(k + 1) + pending.skip(k + 1));
    lemma_flush_append(m, pending.take(k + 1), pending.skip(k + 1));
    assert(m.flush(pending) == m2.flush(pending.skip(k + 1)));
    lemma_flush_deaths_monotone(m2, pending.skip(k + 1), b);
}

/// Every command in `draw_commands` is a draw of some buffer whose cached
/// death time lies after `now`.
proof fn lemma_draw_commands_members(deaths: Seq<int>, now: int, c: CommandModel)
    requires
        draw_commands(deaths, now).contains(c),
    ensures
        exists|i: int|
            0 <= i < deaths.len() && c == (CommandModel::Draw { buffer_index: i }) && deaths[i]
                > now,
    decreases deaths.len(),
{
    broadcast use lemma_seq_concat_contains_all_elements;

    let shorter = deaths.drop_last();
    let last = deaths.len() - 1;
    if shorter.len() < deaths.len() {
        let tail = if deaths.last() > now {
            seq![CommandModel::Draw { buffer_index: last }]
        } else {
            Seq::<CommandModel>::empty()
        };
        assert(draw_commands(deaths, now) == draw_commands(shorter, now) + tail);
        if draw_commands(shorter, now).contains(c) {
            lemma_draw_commands_members(shorter, now, c);
            let i = choose|i: int|
                0 <= i < shorter.len() && c == (CommandModel::Draw { buffer_index: i })
                    && shorter[i] > now;
            assert(0 <= i < deaths.len() && c == (CommandModel::Draw { buffer_index: i })
                && deaths[i] > now);
        } else {
            assert(tail.contains(c));
            assert(deaths.last() > now);
            assert(tail[0] == c);
            assert(0 <= last < deaths.len() && c == (CommandModel::Draw { buffer_index: last })
                && deaths[last] > now);
        }
    }
}

/// A buffer whose cached death time lies after `now` gets a draw command.
proof fn lemma_draw_commands_cover(deaths: Seq<int>, now: int, b: int)
    requires
        0 <= b < deaths.len(),
        deaths[b] > now,
    ensures
        draw_commands(deaths, now).contains(CommandModel::Draw { buffer_index: b }),
    decreases deaths.len(),
{
    broadcast use lemma_seq_concat_contains_all_elements;

    let shorter = deaths.drop_last();
    let last = deaths.len() - 1;
    if b == last {
        let tail = seq![CommandModel::Draw { buffer_index: last }];
        assert(tail[0] == (CommandModel::Draw { buffer_index: b }));
        assert(tail.contains(CommandModel::Draw { buffer_index: b }));
        assert(draw_commands(deaths, now) == draw_commands(shorter, now) + tail);
    } else {
        assert(shorter[b] == deaths[b]);
        lemma_draw_commands_cover(shorter, now, b);
    }
}

/// Liveness skip correctness: a buffer's draw call is issued if and only if
/// its cached death time lies after the current tick; it is skipped if and
/// only if every particle written into it has expired by that cached bound.
pub proof fn lemma_draw_skip_iff(deaths: Seq<int>, now: int, b: int)
    requires
        0 <= b < deaths.len(),
    ensures
        draw_commands(deaths, now).contains(CommandModel::Draw { buffer_index: b }) <==> deaths[b]
            > now,
{
    if deaths[b] > now {
        lemma_draw_commands_cover(deaths, now, b);
    }
    if draw_commands(deaths, now).contains(CommandModel::Draw { buffer_index: b }) {
        lemma_draw_commands_members(deaths, now, CommandModel::Draw { buffer_index: b });
    }
}

/// After a drain, the buffer that received a particle expiring at tick `T`
/// is drawn, never skipped, at every tick before `T`.
pub proof fn lemma_buffer_not_skipped_before_death(
    m: Model,
    pending: Seq<Particle>,
    k: int,
    now: int,
)
    requires
        m.wf(),
        0 <= k < pending.len(),
        now < pending[k].death_time(),
    ensures
        draw_commands(m.flush(pending).deaths, now).contains(
            CommandModel::Draw { buffer_index: m.flush(pending.take(k)).cursor_buffer },
        ),
{
    lemma_written_particle_keeps_buffer_live(m, pending, k);
    lemma_draw_skip_iff(
        m.flush(pending).deaths,
        now,
        m.flush(pending.take(k)).cursor_buffer,
    );
}

/// The ring slots that draining `pending` writes, each as its linear
/// position: the cursor's position just before the first, second, ... last
/// particle is written.
pub open spec fn written_positions(m: Model, pending: Seq<Particle>) -> Set<int> {
    Set::new(
        |pos: int|
            exists|k: int|
                0 <= k < pending.len() && linear_cursor(m.flush(#[trigger] pending.take(k)))
                    == pos,
    )
}

/// Capacity conservation: draining `pending` writes exactly
/// min(pending.len(), ring size) distinct slots. Up to one full ring every
/// particle lands in its own slot; beyond that the cursor wraps and later
/// particles of the same drain overwrite slots written earlier, so the
/// count stays at the ring size.
pub proof fn lemma_capacity_conservation(m: Model, pending: Seq<Particle>)
    requires
        m.wf(),
    ensures
        written_positions(m, pending).finite(),
        written_positions(m, pending).len() == if pending.len() <= ring_size(m) {
            pending.len() as int
        } else {
            ring_size(m)
        },
    decreases pending.len(),
{
    let t = ring_size(m);
    let lin = linear_cursor(m);
    assert(t >= 1) by (nonlinear_arith)
        requires
            m.slots.len() >= 1,
            m.cap >= 1,
            t == m.slots.len() * m.cap,
    ;
    if pending.len() == 0 {
        assert(written_positions(m, pending) =~= Set::<int>::empty());
    } else {
        let shorter = pending.drop_last();
        lemma_capacity_conservation(m, shorter);
        let last_k = pending.len() - 1;
        lemma_flush_cursor(m, pending.take(last_k));
        let last_pos = linear_cursor(m.flush(pending.take(last_k)));
        assert forall|kx: int| 0 <= kx <= last_k implies #[trigger] pending.take(kx)
            == shorter.take(kx) by {
            assert(pending.take(kx) =~= shorter.take(kx));
        }
        assert(written_positions(m, pending) =~= written_positions(m, shorter).insert(
            last_pos,
        )) by {
            assert forall|pos: int| written_positions(m, pending).contains(pos) implies
                written_positions(m, shorter).insert(last_pos).contains(pos) by {
                let kx = choose|kx: int|
                    0 <= kx < pending.len() && linear_cursor(m.flush(pending.take(kx))) == pos;
                if kx < last_k {
                    assert(linear_cursor(m.flush(shorter.take(kx))) == pos);
                    assert(written_positions(m, shorter).contains(pos));
                }
            }
            assert forall|pos: int|
                written_positions(m, shorter).insert(last_pos).contains(pos) implies
                written_positions(m, pending).contains(pos) by {
                if pos == last_pos {
                    assert(linear_cursor(m.flush(pending.take(last_k))) == pos);
                } else {
                    let kx = choose|kx: int|
                        0 <= kx < shorter.len() && linear_cursor(m.flush(shorter.take(kx)))
                            == pos;
                    assert(linear_cursor(m.flush(pending.take(kx))) == pos);
                }
            }
        }
        if pending.len() <= t {
            if written_positions(m, shorter).contains(last_pos) {
                let kx = choose|kx: int|
                    0 <= kx < shorter.len() && linear_cursor(m.flush(shorter.take(kx)))
                        == last_pos;
                lemma_flush_cursor(m, pending.take(kx));
                assert((lin + kx) % t == (lin + last_k) % t);
                lemma_mod_equivalence(lin + kx, lin + last_k, t);
                assert((kx - last_k) % t == 0);
                lemma_mod_add_multiples_vanish(kx - last_k, t);
                assert((t + (kx - last_k)) % t == 0);
                assert(0 < t + (kx - last_k) < t);
                lemma_small_mod((t + (kx - last_k)) as nat, t as nat);
                assert(false);
            }
            assert(written_positions(m, shorter).len() == last_k);
        } else {
            let kx = last_k - t;
            lemma_flush_cursor(m, pending.take(kx));
            assert((lin + last_k) % t == (lin + kx + t) % t);
            lemma_mod_add_multiples_vanish(lin + kx, t);
            assert((lin + kx) % t == (lin + last_k) % t);
            assert(linear_cursor(m.flush(shorter.take(kx))) == last_pos);
            assert(written_positions(m, shorter).contains(last_pos));
        }
    }
}

/// Placement: the `k`-th pending particle is written at the slot the
/// cursor reaches after the `k` particles before it, and that is what the
/// slot holds after the drain, provided no later particle of the same
/// drain wraps around onto the same slot.
pub proof fn lemma_particle_placement(m: Model, pending: Seq<Particle>, k: int)
    requires
        m.wf(),
        0 <= k < pending.len(),
        forall|k2: int| k < k2 < pending.len() ==> #[trigger] ((k2 - k) % ring_size(m)) != 0,
    ensures
        ({
            let mk = m.flush(pending.take(k));
            m.flush(pending).slots[mk.cursor_buffer][mk.cursor_slot] == pending[k]
        }),
    decreases pending.len(),
{
    let t = ring_size(m);
    let lin = linear_cursor(m);
    assert(t >= 1) by (nonlinear_arith)
        requires
            m.slots.len() >= 1,
            m.cap >= 1,
            t == m.slots.len() * m.cap,
    ;
    let last = pending.len() - 1;
    let shorter = pending.drop_last();
    let mk = m.flush(pending.take(k));
    lemma_flush_cursor(m, pending.take(k));
    assert(pending =~= shorter.push(pending[last]));
    lemma_flush_push(m, shorter, pending[last]);
    let ml = m.flush(shorter);
    lemma_flush_cursor(m, shorter);
    assert(m.flush(pending) == ml.write_one(pending[last]));
    if k == last {
        assert(pending.take(k) =~= shorter);
        assert(mk == ml);
        assert(ml.write_one(pending[last]).slots[ml.cursor_buffer][ml.cursor_slot]
            == pending[last]);
    } else {
        assert(pending.take(k) =~= shorter.take(k));
        assert forall|k2: int| k < k2 < shorter.len() implies #[trigger] ((k2 - k) % ring_size(m)) != 0 by {}
        lemma_particle_placement(m, shorter, k);
        assert(ml.slots[mk.cursor_buffer][mk.cursor_slot] == pending[k]);
        // The final write goes to a different slot, so it does not disturb
        // the one that holds the k-th particle.
        assert(shorter.take(k).len() == k);
        assert(linear_cursor(mk) == (lin + k) % t);
        assert(linear_cursor(ml) == (lin + last) % t);
        if linear_cursor(mk) == linear_cursor(ml) {
            lemma_mod_equivalence(lin + last, lin + k, t);
            assert(((lin + last) - (lin + k)) % t == 0);
            assert((last - k) % t == 0);
            assert(false);
        }
        assert(!(mk.cursor_buffer == ml.cursor_buffer && mk.cursor_slot == ml.cursor_slot));
        assert(ml.write_one(pending[last]).slots[mk.cursor_buffer][mk.cursor_slot]
            == ml.slots[mk.cursor_buffer][mk.cursor_slot]);
    }
}

/// Wraparound placement: so long as the pending queue fits in the ring,
/// every pending particle ends in its own slot, the one the cursor reached
/// after its predecessors.
pub proof fn lemma_placement_within_capacity(m: Model, pending: Seq<Particle>, k: int)
    requires
        m.wf(),
        pending.len() <= ring_size(m),
        0 <= k < pending.len(),
    ensures
        ({
            let mk = m.flush(pending.take(k));
            m.flush(pending).slots[mk.cursor_buffer][mk.cursor_slot] == pending[k]
        }),
{
    let t = ring_size(m);
    assert forall|k2: int| k < k2 < pending.len() implies #[trigger] ((k2 - k) % t) != 0 by {
        assert(0 < k2 - k < t);
        lemma_small_mod((k2 - k) as nat, t as nat);
    }
    lemma_particle_placement(m, pending, k);
}

/// A render call that starts with an empty pending queue leaves the
/// allocation state untouched and issues no buffer-update command: what it
/// returns are exactly the draw commands of the buffers still live.
pub proof fn lemma_zero_pending_render(m: Model)
    ensures
        m.flush(Seq::<Particle>::empty()) == m,
        m.update_commands(Seq::<Particle>::empty()) == Seq::<CommandModel>::empty(),
{
}

} // verus!
