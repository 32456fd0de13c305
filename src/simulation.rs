use vstd::prelude::*;

use crate::environment::Environment;
use crate::molecule::Molecule;
use crate::value_board::{census, ValueBoard};
use crate::moved_molecule::{
    collides, resolve_primary, roll_at, roll_table_fits, scan_partners, table_view, MovedMolecule,
};
use crate::collided_molecule::CollidedMolecules;
use crate::reaction_registry::{CollidedElements, ReactionRegistry};
use crate::tables::{cell_entries, cell_index_get, cell_index_insert, cell_index_new, CellIndex};
use crate::probability::PROB_ONE;
use crate::random::draw_u64;
use crate::vector::{sq, Vector3d, VectorInt3d, SCALE};

verus! {

/// The grid cell a moved molecule is bucketed by.
pub open spec fn cell_of(m: MovedMolecule) -> VectorInt3d {
    m.next_position.cell()
}

pub open spec fn cell_key(c: VectorInt3d) -> (i32, i32, i32) {
    (c.x, c.y, c.z)
}

pub open spec fn in_cell(c: VectorInt3d) -> spec_fn(MovedMolecule) -> bool {
    |m: MovedMolecule| cell_of(m) == c
}

/// The cells of `s`, each once, in the order of their first occurrence.
pub open spec fn cells_in_order(s: Seq<MovedMolecule>) -> Seq<VectorInt3d>
    decreases s.len(),
{
    if s.len() == 0 {
        seq![]
    } else {
        let prev = cells_in_order(s.drop_last());
        if prev.contains(cell_of(s.last())) {
            prev
        } else {
            prev.push(cell_of(s.last()))
        }
    }
}

/// The buckets of `s`: for each of its cells, in order of first occurrence,
/// the molecules of `s` in that cell, in their order in `s`.
pub open spec fn buckets_of(s: Seq<MovedMolecule>) -> Seq<Seq<MovedMolecule>> {
    cells_in_order(s).map_values(|c: VectorInt3d| s.filter(in_cell(c)))
}

/// Partitions moved molecules into buckets by the grid cell of their next
/// position, keeping their order within each bucket.
pub fn group(moved: &Vec<MovedMolecule>) -> (r: Vec<Vec<MovedMolecule>>)
    ensures
        r@.len() == buckets_of(moved@).len(),
        forall|b: int| 0 <= b < r@.len() ==> #[trigger] r@[b]@ == buckets_of(moved@)[b],
{
    let mut buckets: Vec<Vec<MovedMolecule>> = Vec::new();
    let mut index: CellIndex = cell_index_new();
    let ghost mut cells: Seq<VectorInt3d> = seq![];
    let mut i: usize = 0;
    while i < moved.len()
        invariant
            i <= moved@.len(),
            cells == cells_in_order(moved@.subrange(0, i as int)),
            buckets@.len() == cells.len(),
            forall|b: int|
                0 <= b < cells.len() ==> #[trigger] buckets@[b]@ == moved@.subrange(
                    0,
                    i as int,
                ).filter(in_cell(cells[b])),
            forall|b: int|
                0 <= b < cells.len() ==> cell_entries(index).contains_key(
                    #[trigger] cell_key(cells[b]),
                ) && cell_entries(index)[cell_key(cells[b])] == b,
            forall|k: (i32, i32, i32)|
                #[trigger] cell_entries(index).contains_key(k) ==> cell_entries(index)[k]
                    < cells.len() && cell_key(cells[cell_entries(index)[k] as int]) == k,
        decreases moved@.len() - i,
    {
        let m = moved[i];
        let c = m.next_position.into_vectorint();
        let key = (c.x, c.y, c.z);
        let ghost prefix = moved@.subrange(0, i as int);
        let ghost next = moved@.subrange(0, i + 1);
        assert(next == prefix.push(m));
        assert(next.drop_last() == prefix);
        proof {
            assert forall|b: int| 0 <= b < cells.len() implies #[trigger] next.filter(
                in_cell(cells[b]),
            ) == if cells[b] == c {
                prefix.filter(in_cell(cells[b])).push(m)
            } else {
                prefix.filter(in_cell(cells[b]))
            } by {
                prefix.lemma_filter_push(m, in_cell(cells[b]));
            }
        }
        match cell_index_get(&index, key) {
            Some(bi) => {
                assert(cell_key(cells[bi as int]) == key);
                assert(cells[bi as int] == c);
                assert(cells.contains(c));
                buckets[bi].push(m);
                proof {
                    assert forall|b: int| 0 <= b < cells.len() && b != bi implies cells[b] != c by {
                        if cells[b] == c {
                            assert(cell_entries(index)[cell_key(cells[b])] == b);
                        }
                    }
                }
            },
            None => {
                proof {
                    if cells.contains(c) {
                        let b = choose|b: int| 0 <= b < cells.len() && cells[b] == c;
                        assert(cell_entries(index).contains_key(cell_key(cells[b])));
                    }
                    assert(!cells.contains(c));
                }
                let nb = buckets.len();
                let mut fresh: Vec<MovedMolecule> = Vec::new();
                fresh.push(m);
                buckets.push(fresh);
                cell_index_insert(&mut index, key, nb);
                proof {
                    reveal_with_fuel(Seq::filter, 2);
                    prefix.lemma_filter_push(m, in_cell(c));
                    assert forall|b: int| 0 <= b < cells.len() implies cells[b] != c by {
                        assert(cells.contains(cells[b]));
                    }
                    lemma_filter_none(prefix, c);
                    cells = cells.push(c);
                }
            },
        }
        i = i + 1;
    }
    assert(moved@.subrange(0, moved@.len() as int) == moved@);
    buckets
}

/// Primaries `i..n` of a bucket resolved in order, a primary consumed as an
/// earlier primary's partner being passed over; `out` holds what earlier
/// primaries left.
pub open spec fn resolve_from(
    reg: ReactionRegistry,
    rolls: Seq<Seq<u64>>,
    n: int,
    i: int,
    cur: Seq<MovedMolecule>,
    consumed: Seq<bool>,
    out: Seq<Molecule>,
) -> Seq<Molecule>
    decreases n - i,
{
    if i < 0 || i >= n {
        out
    } else if consumed[i] {
        resolve_from(reg, rolls, n, i + 1, cur, consumed, out)
    } else {
        let (after, products, partner) = resolve_primary(reg, rolls, n, i, cur, consumed);
        let now_consumed = match partner {
            Some(j) => consumed.update(j, true),
            None => consumed,
        };
        resolve_from(reg, rolls, n, i + 1, after, now_consumed, out + products)
    }
}

/// The molecules a bucket resolves into, with one roll per pair of indices.
pub open spec fn resolved(reg: ReactionRegistry, bucket: Seq<MovedMolecule>, rolls: Seq<Seq<u64>>) -> Seq<
    Molecule,
> {
    resolve_from(
        reg,
        rolls,
        bucket.len() as int,
        0,
        bucket,
        Seq::new(bucket.len(), |k: int| false),
        seq![],
    )
}

/// The molecules all buckets resolve into, bucket after bucket, each with
/// its own rolls.
pub open spec fn resolved_all(
    reg: ReactionRegistry,
    buckets: Seq<Seq<MovedMolecule>>,
    rolls: Seq<Seq<Seq<u64>>>,
) -> Seq<Molecule>
    decreases buckets.len(),
{
    if buckets.len() == 0 {
        seq![]
    } else {
        resolved_all(reg, buckets.drop_last(), rolls) + resolved(
            reg,
            buckets.last(),
            rolls[buckets.len() - 1],
        )
    }
}

/// Resolves one bucket: each primary in index order, unless an earlier
/// primary consumed it, reacts with its first partner whose trial fires, or
/// else undergoes its lone trial. `rolls` holds one roll per pair of indices.
pub fn resolve_bucket(reg: &ReactionRegistry, bucket: Vec<MovedMolecule>, rolls: &Vec<Vec<u64>>) -> (r:
    Vec<Molecule>)
    requires
        reg.wf(),
        roll_table_fits(table_view(*rolls), bucket@.len() as int),
    ensures
        r@ == resolved(*reg, bucket@, table_view(*rolls)),
{
    let n = bucket.len();
    let mut cur = bucket;
    let mut consumed: Vec<bool> = vec![false; n];
    assert(consumed@ == Seq::new(n as nat, |k: int| false));
    let mut out: Vec<Molecule> = Vec::new();
    let mut i: usize = 0;
    while i < n
        invariant
            i <= n,
            cur@.len() == n,
            consumed@.len() == n,
            roll_table_fits(table_view(*rolls), n as int),
            reg.wf(),
            resolve_from(*reg, table_view(*rolls), n as int, i as int, cur@, consumed@, out@) == resolved(
                *reg,
                bucket@,
                table_view(*rolls),
            ),
        decreases n - i,
    {
        if !consumed[i] {
            let (mut mols, partner) = MovedMolecule::process_collisions(
                &mut cur,
                i,
                &consumed,
                reg,
                rolls,
            );
            out.append(&mut mols);
            match partner {
                Some(j) => {
                    consumed.set(j, true);
                },
                None => {},
            }
        }
        i = i + 1;
    }
    out
}

/// Resolves every bucket, in order, with its own roll table, and appends
/// what they leave to `molecules`.
pub fn detect_collision(
    mut moved_molecules: Vec<Vec<MovedMolecule>>,
    reg: &ReactionRegistry,
    rolls: &Vec<Vec<Vec<u64>>>,
    molecules: &mut Vec<Molecule>,
)
    requires
        reg.wf(),
        rolls@.len() == moved_molecules@.len(),
        forall|b: int|
            0 <= b < rolls@.len() ==> roll_table_fits(
                #[trigger] tables_view(*rolls)[b],
                moved_molecules@[b]@.len() as int,
            ),
    ensures
        final(molecules)@ == old(molecules)@ + resolved_all(
            *reg,
            moved_molecules@.map_values(|b: Vec<MovedMolecule>| b@),
            tables_view(*rolls),
        ),
{
    let ghost buckets = moved_molecules@.map_values(|b: Vec<MovedMolecule>| b@);
    let mut b: usize = 0;
    while b < moved_molecules.len()
        invariant
            b <= moved_molecules@.len(),
            reg.wf(),
            rolls@.len() == moved_molecules@.len(),
            buckets.len() == moved_molecules@.len(),
            forall|k: int|
                0 <= k < rolls@.len() ==> roll_table_fits(
                    #[trigger] tables_view(*rolls)[k],
                    buckets[k].len() as int,
                ),
            forall|k: int| b <= k < buckets.len() ==> #[trigger] moved_molecules@[k]@ == buckets[k],
            molecules@ == old(molecules)@ + resolved_all(
                *reg,
                buckets.subrange(0, b as int),
                tables_view(*rolls),
            ),
        decreases moved_molecules@.len() - b,
    {
        let mut bucket: Vec<MovedMolecule> = Vec::new();
        std::mem::swap(&mut moved_molecules[b], &mut bucket);
        assert(bucket@ == buckets[b as int]);
        assert(buckets.subrange(0, b + 1).drop_last() == buckets.subrange(0, b as int));
        assert(table_view(rolls@[b as int]) == tables_view(*rolls)[b as int]);
        let mut left = resolve_bucket(reg, bucket, &rolls[b]);
        molecules.append(&mut left);
        b = b + 1;
    }
    assert(buckets.subrange(0, buckets.len() as int) == buckets);
}

/// The roll tables a vector of tables holds.
pub open spec fn tables_view(t: Vec<Vec<Vec<u64>>>) -> Seq<Seq<Seq<u64>>> {
    t@.map_values(|x: Vec<Vec<u64>>| table_view(x))
}

/// Each molecule of `ms` moved along the direction of the same index.
pub open spec fn moved_all(ms: Seq<Molecule>, dirs: Seq<Vector3d>) -> Seq<MovedMolecule> {
    Seq::new(ms.len(), |k: int| ms[k].moved(dirs[k]))
}

/// The molecules after one timestep from `ms`: the list reversed, each
/// molecule moved along its direction, the moved molecules bucketed, and
/// each bucket resolved with its roll table.
pub open spec fn stepped(
    reg: ReactionRegistry,
    ms: Seq<Molecule>,
    dirs: Seq<Vector3d>,
    rolls: Seq<Seq<Seq<u64>>>,
) -> Seq<Molecule> {
    resolved_all(reg, buckets_of(moved_all(ms.reverse(), dirs)), rolls)
}

/// Directions that `get_random_unitary` may give, one per molecule.
pub open spec fn valid_directions(dirs: Seq<Vector3d>, n: int) -> bool {
    &&& dirs.len() == n
    &&& forall|k: int|
        0 <= k < n ==> (#[trigger] dirs[k]).norm2() <= sq(SCALE as int) && sq(SCALE as int - 3)
            <= dirs[k].norm2()
}

/// A roll table below `PROB_ONE` for each bucket.
pub open spec fn valid_rolls(rolls: Seq<Seq<Seq<u64>>>, buckets: Seq<Seq<MovedMolecule>>) -> bool {
    &&& rolls.len() == buckets.len()
    &&& forall|b: int| 0 <= b < buckets.len() ==> roll_table_fits(#[trigger] rolls[b], buckets[b].len() as int)
    &&& forall|b: int, i: int, j: int|
        0 <= b < rolls.len() && 0 <= i < rolls[b].len() && 0 <= j < rolls[b][i].len()
            ==> #[trigger] rolls[b][i][j] < PROB_ONE
}

/// `after` is what one timestep can make of `before`: for some directions
/// and rolls that the random draws may give, it is `stepped` from `before`.
pub open spec fn valid_step(reg: ReactionRegistry, before: Seq<Molecule>, after: Seq<Molecule>) -> bool {
    exists|dirs: Seq<Vector3d>, rolls: Seq<Seq<Seq<u64>>>|
        {
            &&& valid_directions(dirs, before.len() as int)
            &&& valid_rolls(rolls, buckets_of(moved_all(before.reverse(), dirs)))
            &&& after == #[trigger] stepped(reg, before, dirs, rolls)
        }
}

/// A table of `n` rows of `n` random rolls below `PROB_ONE`.
fn draw_roll_table(rng: &mut fastrand::Rng, n: usize) -> (r: Vec<Vec<u64>>)
    ensures
        roll_table_fits(table_view(r), n as int),
        forall|i: int, j: int|
            0 <= i < table_view(r).len() && 0 <= j < table_view(r)[i].len()
                ==> #[trigger] table_view(r)[i][j] < PROB_ONE,
{
    let mut table: Vec<Vec<u64>> = Vec::new();
    while table.len() < n
        invariant
            table@.len() <= n,
            forall|i: int| 0 <= i < table@.len() ==> #[trigger] table@[i]@.len() == n,
            forall|i: int, j: int|
                0 <= i < table@.len() && 0 <= j < table@[i]@.len() ==> #[trigger] table@[i]@[j]
                    < PROB_ONE,
        decreases n - table@.len(),
    {
        let mut row: Vec<u64> = Vec::new();
        while row.len() < n
            invariant
                row@.len() <= n,
                forall|j: int| 0 <= j < row@.len() ==> #[trigger] row@[j] < PROB_ONE,
            decreases n - row@.len(),
        {
            let roll = draw_u64(rng, 0, PROB_ONE);
            row.push(roll);
        }
        table.push(row);
    }
    table
}

/// One timestep: reverses the molecule list, moves every molecule one step
/// in a random direction, buckets the moved molecules by grid cell and
/// resolves each bucket with random rolls.
pub fn simulation(reg: &ReactionRegistry, molecules: &mut Vec<Molecule>, rng: &mut fastrand::Rng)
    requires
        reg.wf(),
    ensures
        valid_step(*reg, old(molecules)@, final(molecules)@),
{
    let ghost start = molecules@;
    let n = molecules.len();
    let mut moved: Vec<MovedMolecule> = Vec::new();
    let ghost mut dirs: Seq<Vector3d> = seq![];
    let mut k: usize = 0;
    while k < n
        invariant
            k <= n,
            n == start.len(),
            molecules@ == start,
            valid_directions(dirs, k as int),
            moved@ == moved_all(start.reverse().subrange(0, k as int), dirs),
        decreases n - k,
    {
        let m = molecules[n - 1 - k];
        assert(m == start.reverse()[k as int]);
        let dir = Vector3d::get_random_unitary(rng);
        moved.push(m.apply_movement(dir));
        proof {
            dirs = dirs.push(dir);
        }
        assert(moved@ =~= moved_all(start.reverse().subrange(0, k + 1), dirs));
        k = k + 1;
    }
    assert(start.reverse().subrange(0, n as int) == start.reverse());
    let buckets = group(&moved);
    let ghost bucket_views = buckets_of(moved@);
    let mut rolls: Vec<Vec<Vec<u64>>> = Vec::new();
    let mut b: usize = 0;
    while b < buckets.len()
        invariant
            b <= buckets@.len(),
            buckets@.len() == bucket_views.len(),
            forall|c: int| 0 <= c < buckets@.len() ==> #[trigger] buckets@[c]@ == bucket_views[c],
            rolls@.len() == b,
            forall|c: int|
                0 <= c < b ==> roll_table_fits(#[trigger] tables_view(rolls)[c], bucket_views[c].len() as int),
            forall|c: int, i: int, j: int|
                0 <= c < b && 0 <= i < tables_view(rolls)[c].len() && 0 <= j < tables_view(rolls)[c][i].len()
                    ==> #[trigger] tables_view(rolls)[c][i][j] < PROB_ONE,
        decreases buckets@.len() - b,
    {
        let table = draw_roll_table(rng, buckets[b].len());
        let ghost before = tables_view(rolls);
        rolls.push(table);
        assert(tables_view(rolls) =~= before.push(table_view(table)));
        b = b + 1;
    }
    assert(buckets@.map_values(|v: Vec<MovedMolecule>| v@) =~= bucket_views);
    molecules.clear();
    detect_collision(buckets, reg, &rolls, molecules);
    assert(valid_rolls(tables_view(rolls), bucket_views));
    assert(molecules@ == stepped(*reg, start, dirs, tables_view(rolls)));
}

/// Runs `iterations` timesteps and records the population of each species
/// after every `sample_every`-th one, with its timestep, on the board.
pub fn run(environment: Environment, iterations: usize, sample_every: usize, rng: &mut fastrand::Rng) -> (r:
    ValueBoard)
    requires
        environment.registry.wf(),
        environment.board.columns@.len() >= 1,
        sample_every > 0,
    ensures
        r.columns == environment.board.columns,
        r.rows@.len() == environment.board.rows@.len() + iterations / sample_every,
        forall|k: int|
            0 <= k < environment.board.rows@.len() ==> #[trigger] r.rows@[k]
                == environment.board.rows@[k],
        forall|k: int|
            environment.board.rows@.len() <= k < r.rows@.len() ==> {
                &&& #[trigger] r.rows@[k]@.len() == r.columns@.len()
                &&& r.rows@[k]@.last() == (k - environment.board.rows@.len() + 1) * sample_every
            },
        exists|states: Seq<Seq<Molecule>>|
            {
                &&& states.len() == iterations + 1
                &&& states[0] == environment.molecules@
                &&& forall|t: int|
                    0 <= t < iterations ==> valid_step(
                        environment.registry,
                        #[trigger] states[t],
                        states[t + 1],
                    )
                &&& forall|k: int|
                    environment.board.rows@.len() <= k < r.rows@.len() ==> #[trigger] r.rows@[k]@
                        == census(
                        states[(k - environment.board.rows@.len() + 1) * sample_every],
                        r.columns@.len() - 1,
                        ((k - environment.board.rows@.len() + 1) * sample_every) as usize,
                    )
            },
{
    let Environment { mut board, registry, mut molecules, .. } = environment;
    let ghost start = board.rows@.len();
    let ghost mut states: Seq<Seq<Molecule>> = seq![molecules@];
    let mut samples: usize = 0;
    let mut t: usize = 0;
    while t < iterations
        invariant
            t <= iterations,
            sample_every > 0,
            registry.wf(),
            board.columns == environment.board.columns,
            board.columns@.len() >= 1,
            board.rows@.len() == start + samples,
            samples * sample_every <= t < (samples + 1) * sample_every,
            forall|k: int| 0 <= k < start ==> #[trigger] board.rows@[k] == environment.board.rows@[k],
            forall|k: int|
                start <= k < board.rows@.len() ==> {
                    &&& #[trigger] board.rows@[k]@.len() == board.columns@.len()
                    &&& board.rows@[k]@.last() == (k - start + 1) * sample_every
                    &&& (k - start + 1) * sample_every <= t
                    &&& board.rows@[k]@ == census(
                        states[(k - start + 1) * sample_every],
                        board.columns@.len() - 1,
                        ((k - start + 1) * sample_every) as usize,
                    )
                },
            registry == environment.registry,
            states.len() == t + 1,
            states[0] == environment.molecules@,
            states[t as int] == molecules@,
            forall|u: int| 0 <= u < t ==> valid_step(registry, #[trigger] states[u], states[u + 1]),
        decreases iterations - t,
    {
        let ghost old_rows = board.rows@;
        let ghost old_states = states;
        let ghost old_t = t as int;
        simulation(&registry, &mut molecules, rng);
        proof {
            states = states.push(molecules@);
            assert forall|k: int| start <= k < old_rows.len() implies {
                &&& (k - start + 1) * sample_every <= old_t
                &&& old_rows[k]@ == census(
                    states[(k - start + 1) * sample_every],
                    board.columns@.len() - 1,
                    ((k - start + 1) * sample_every) as usize,
                )
            } by {
                assert(old_rows[k]@.len() == board.columns@.len());
                assert(states[(k - start + 1) * sample_every] == old_states[(k - start + 1)
                    * sample_every]);
            }
        }
        t = t + 1;
        if t % sample_every == 0 {
            proof {
                lemma_sample_count(t as int, sample_every as int, samples as int);
                assert(samples + 1 <= (samples + 1) * sample_every) by (nonlinear_arith)
                    requires
                        sample_every > 0,
                        samples >= 0,
                ;
            }
            board.add_entry(&molecules, t);
            samples = samples + 1;
            proof {
                assert forall|k: int| start <= k < board.rows@.len() implies {
                    &&& #[trigger] board.rows@[k]@.len() == board.columns@.len()
                    &&& board.rows@[k]@.last() == (k - start + 1) * sample_every
                    &&& (k - start + 1) * sample_every <= t
                    &&& board.rows@[k]@ == census(
                        states[(k - start + 1) * sample_every],
                        board.columns@.len() - 1,
                        ((k - start + 1) * sample_every) as usize,
                    )
                } by {
                    if k < old_rows.len() {
                        assert(board.rows@[k] == old_rows[k]);
                        assert(old_rows[k]@.len() == board.columns@.len());
                    } else {
                        assert(k == start + samples - 1);
                        assert((k - start + 1) * sample_every == t);
                    }
                }
            }
        } else {
            proof {
                lemma_no_sample(t as int, sample_every as int, samples as int);
                assert forall|k: int| start <= k < board.rows@.len() implies {
                    &&& #[trigger] board.rows@[k]@.len() == board.columns@.len()
                    &&& board.rows@[k]@.last() == (k - start + 1) * sample_every
                    &&& (k - start + 1) * sample_every <= t
                    &&& board.rows@[k]@ == census(
                        states[(k - start + 1) * sample_every],
                        board.columns@.len() - 1,
                        ((k - start + 1) * sample_every) as usize,
                    )
                } by {
                    assert(old_rows[k]@.len() == board.columns@.len());
                }
            }
        }
    }
    proof {
        let q = samples as int;
        let rem = iterations - q * sample_every;
        assert((q + 1) * sample_every == q * sample_every + sample_every) by (nonlinear_arith);
        vstd::arithmetic::div_mod::lemma_fundamental_div_mod_converse(
            iterations as int,
            sample_every as int,
            q,
            rem,
        );
    }
    board
}

/// A multiple of `s` reached right after `k` earlier ones is the next one.
proof fn lemma_sample_count(t: int, s: int, k: int)
    requires
        s > 0,
        k * s <= t - 1 < (k + 1) * s,
        t % s == 0,
    ensures
        t == (k + 1) * s,
        (k + 1) * s <= t < (k + 2) * s,
{
    vstd::arithmetic::div_mod::lemma_fundamental_div_mod(t, s);
    let q = t / s;
    assert(t == s * q);
    assert(t == (k + 1) * s) by (nonlinear_arith)
        requires
            k * s <= t - 1,
            t - 1 < (k + 1) * s,
            t == s * q,
            s > 0,
    ;
    assert((k + 1) * s <= t < (k + 2) * s) by (nonlinear_arith)
        requires
            t == (k + 1) * s,
            s > 0,
    ;
}

/// A step that is not a multiple of `s` stays below the next multiple.
proof fn lemma_no_sample(t: int, s: int, k: int)
    requires
        s > 0,
        k * s <= t - 1 < (k + 1) * s,
        t % s != 0,
    ensures
        k * s <= t < (k + 1) * s,
{
    if t == (k + 1) * s {
        vstd::arithmetic::div_mod::lemma_mod_multiples_basic(k + 1, s);
    }
}

/// Every cell of `s` is among its cells in order of first occurrence.
pub proof fn lemma_cell_listed(s: Seq<MovedMolecule>, i: int)
    requires
        0 <= i < s.len(),
    ensures
        cells_in_order(s).contains(cell_of(s[i])),
    decreases s.len(),
{
    let prev = cells_in_order(s.drop_last());
    if i < s.len() - 1 {
        lemma_cell_listed(s.drop_last(), i);
        let k = choose|k: int| 0 <= k < prev.len() && prev[k] == cell_of(s[i]);
        if !prev.contains(cell_of(s.last())) {
            assert(prev.push(cell_of(s.last()))[k] == cell_of(s[i]));
        }
    } else if !prev.contains(cell_of(s.last())) {
        assert(prev.push(cell_of(s.last()))[prev.len() as int] == cell_of(s[i]));
    }
}

/// Two moved molecules whose next positions lie in the same grid cell end up
/// in the same bucket; two in different cells never share one, however
/// close they are.
pub proof fn lemma_bucket_membership(s: Seq<MovedMolecule>, i: int, j: int)
    requires
        0 <= i < s.len(),
        0 <= j < s.len(),
    ensures
        cell_of(s[i]) == cell_of(s[j]) ==> exists|b: int|
            0 <= b < buckets_of(s).len() && #[trigger] buckets_of(s)[b].contains(s[i])
                && buckets_of(s)[b].contains(s[j]),
        cell_of(s[i]) != cell_of(s[j]) ==> forall|b: int|
            0 <= b < buckets_of(s).len() ==> !(#[trigger] buckets_of(s)[b].contains(s[i])
                && buckets_of(s)[b].contains(s[j])),
{
    let cells = cells_in_order(s);
    if cell_of(s[i]) == cell_of(s[j]) {
        lemma_cell_listed(s, i);
        let b = choose|b: int| 0 <= b < cells.len() && cells[b] == cell_of(s[i]);
        assert(s.contains(s[i]));
        assert(s.contains(s[j]));
        s.lemma_filter_contains_rev(in_cell(cells[b]), s[i]);
        s.lemma_filter_contains_rev(in_cell(cells[b]), s[j]);
        assert(buckets_of(s)[b] == s.filter(in_cell(cells[b])));
        assert(buckets_of(s)[b].contains(s[i]) && buckets_of(s)[b].contains(s[j]));
    } else {
        assert forall|b: int| 0 <= b < buckets_of(s).len() implies !(
        #[trigger] buckets_of(s)[b].contains(s[i]) && buckets_of(s)[b].contains(s[j])) by {
            let f = s.filter(in_cell(cells[b]));
            assert(buckets_of(s)[b] == f);
            if f.contains(s[i]) && f.contains(s[j]) {
                let ki = choose|k: int| 0 <= k < f.len() && f[k] == s[i];
                let kj = choose|k: int| 0 <= k < f.len() && f[k] == s[j];
                s.lemma_filter_pred(in_cell(cells[b]), ki);
                s.lemma_filter_pred(in_cell(cells[b]), kj);
            }
        }
    }
}

/// Two overlapping molecules of a bucket for which the registry holds no
/// entry, neither as a pair nor alone, both come out at the positions they
/// held before the step, with their species unchanged.
pub proof fn lemma_unreactive_pair_stays(
    reg: ReactionRegistry,
    a: MovedMolecule,
    b: MovedMolecule,
    rolls: Seq<Seq<u64>>,
)
    requires
        collides(a, b),
        reg.lookup(CollidedElements::Bi(a.molecule.kind, b.molecule.kind).key()) is None,
        reg.lookup(CollidedElements::Mono(a.molecule.kind).key()) is None,
        reg.lookup(CollidedElements::Mono(b.molecule.kind).key()) is None,
    ensures
        resolved(reg, seq![a, b], rolls) == seq![a.molecule, b.molecule],
{
    let bucket = seq![a, b];
    let none = Seq::new(2, |k: int| false);
    let after = bucket.update(0, a.stayed()).update(1, b.stayed());
    assert(scan_partners(reg, rolls, 2, 0, 2, after, none) == (after, None::<(int, Seq<Molecule>)>));
    assert(scan_partners(reg, rolls, 2, 0, 1, bucket, none) == (after, None::<(int, Seq<Molecule>)>));
    let first = reg.decision(CollidedMolecules::Mono(after[0]), roll_at(rolls, 0, 0)).0;
    assert(first == seq![a.molecule]);
    assert(resolve_primary(reg, rolls, 2, 0, bucket, none) == (after, first, None::<int>));
    assert(scan_partners(reg, rolls, 2, 1, 2, after, none) == (after, None::<(int, Seq<Molecule>)>));
    let second = reg.decision(CollidedMolecules::Mono(after[1]), roll_at(rolls, 1, 1)).0;
    assert(second == seq![b.molecule]);
    assert(resolve_primary(reg, rolls, 2, 1, after, none) == (after, second, None::<int>));
    assert(resolve_from(reg, rolls, 2, 2, after, none, first + second) == first + second);
    assert(resolve_from(reg, rolls, 2, 1, after, none, first) == first + second);
    assert(seq![] + first == first);
    assert(resolve_from(reg, rolls, 2, 0, bucket, none, seq![]) == first + second);
    assert(first + second == seq![a.molecule, b.molecule]);
}

/// One timestep on two molecules whose moved positions share a grid cell
/// and overlap, with no registry entry for either of them alone or for the
/// two as a pair in either order: both molecules come out unchanged, at the
/// positions they held before the step (in the reversed order in which the
/// step handles them).
pub proof fn lemma_unreactive_pair_step(
    reg: ReactionRegistry,
    x: Molecule,
    y: Molecule,
    dirs: Seq<Vector3d>,
    rolls: Seq<Seq<Seq<u64>>>,
)
    requires
        dirs.len() == 2,
        cell_of(y.moved(dirs[0])) == cell_of(x.moved(dirs[1])),
        collides(y.moved(dirs[0]), x.moved(dirs[1])),
        reg.lookup(CollidedElements::Bi(x.kind, y.kind).key()) is None,
        reg.lookup(CollidedElements::Bi(y.kind, x.kind).key()) is None,
        reg.lookup(CollidedElements::Mono(x.kind).key()) is None,
        reg.lookup(CollidedElements::Mono(y.kind).key()) is None,
    ensures
        stepped(reg, seq![x, y], dirs, rolls) == seq![y, x],
{
    let my = y.moved(dirs[0]);
    let mx = x.moved(dirs[1]);
    let c = cell_of(my);
    assert(seq![x, y].reverse() =~= seq![y, x]);
    let moved = moved_all(seq![y, x], dirs);
    assert(moved =~= seq![my, mx]);
    assert(moved.drop_last() =~= seq![my]);
    assert(seq![my].drop_last() =~= Seq::<MovedMolecule>::empty());
    assert(cells_in_order(Seq::<MovedMolecule>::empty()) == Seq::<VectorInt3d>::empty());
    assert(!Seq::<VectorInt3d>::empty().contains(c));
    assert(seq![my].last() == my);
    assert(cells_in_order(seq![my]) =~= seq![c]);
    assert(seq![c].contains(c)) by {
        assert(seq![c][0] == c);
    }
    assert(cells_in_order(moved) =~= seq![c]);
    reveal_with_fuel(Seq::filter, 3);
    assert(seq![my].filter(in_cell(c)) =~= seq![my]);
    assert(moved.filter(in_cell(c)) =~= seq![my, mx]);
    assert(buckets_of(moved) =~= seq![seq![my, mx]]);
    lemma_unreactive_pair_stays(reg, my, mx, rolls[0]);
    assert(seq![seq![my, mx]].drop_last() =~= Seq::<Seq<MovedMolecule>>::empty());
    assert(resolved_all(reg, Seq::<Seq<MovedMolecule>>::empty(), rolls) == Seq::<Molecule>::empty());
    assert(resolved(reg, seq![my, mx], rolls[0]) == seq![y, x]);
    assert(resolved_all(reg, seq![seq![my, mx]], rolls) =~= seq![y, x]);
}

/// No molecule of `s` lies in a cell that is not among its cells.
proof fn lemma_filter_none(s: Seq<MovedMolecule>, c: VectorInt3d)
    requires
        !cells_in_order(s).contains(c),
    ensures
        s.filter(in_cell(c)) == Seq::<MovedMolecule>::empty(),
    decreases s.len(),
{
    reveal_with_fuel(Seq::filter, 1);
    if s.len() > 0 {
        let prev = cells_in_order(s.drop_last());
        if prev.contains(c) {
            let k = choose|k: int| 0 <= k < prev.len() && prev[k] == c;
            if !prev.contains(cell_of(s.last())) {
                assert(prev.push(cell_of(s.last()))[k] == c);
            }
        }
        lemma_filter_none(s.drop_last(), c);
        if cell_of(s.last()) == c {
            assert(cells_in_order(s).contains(c)) by {
                if prev.contains(c) {
                } else {
                    assert(prev.push(c)[prev.len() as int] == c);
                }
            }
        }
    }
}

} // verus!
