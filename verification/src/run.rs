//! The run aggregate: identity, configuration, ordered trace, and the
//! storage protocol.
//!
//! Storage is described as a plan of filesystem actions relative to the
//! `.runs` directory; the embedding program executes the plan in order.
//! A run directory is write-once: planning a store for an identifier
//! whose directory already exists is a hard failure that plans nothing.

use vstd::prelude::*;
use crate::RunError;
use crate::bytes::{bytes_eq, copy_bytes, push_bytes, subvec};
use crate::config::{RunConfig, RunConfigV, spec_parse_config, spec_ser_config, serialize_config};
use crate::dec::{dec_digits, lemma_dec_digits_injective, u64_to_dec};
use crate::trace::{BlockExecution, ExecV, execs_view, execs_wf, serialize_execs, spec_ser_execs};

verus! {

/// View of one trace entry: the block's identity `(type, name)` and its
/// per-input (outer), per-branch (inner) execution results.
pub type TraceV = ((Seq<u8>, Seq<u8>), Seq<Seq<ExecV>>);

/// One planned filesystem action, with paths relative to `.runs`.
#[derive(Debug, PartialEq)]
pub enum FsAction {
    /// Create this directory.
    CreateDir(Vec<u8>),
    /// Write this whole file: path, then contents.
    WriteFile(Vec<u8>, Vec<u8>),
}

/// Mathematical content of an `FsAction`.
pub enum ActionV {
    CreateDir(Seq<u8>),
    WriteFile(Seq<u8>, Seq<u8>),
}

impl View for FsAction {
    type V = ActionV;

    open spec fn view(&self) -> ActionV {
        match self {
            FsAction::CreateDir(p) => ActionV::CreateDir(p@),
            FsAction::WriteFile(p, c) => ActionV::WriteFile(p@, c@),
        }
    }
}

/// The per-action views of a plan.
pub open spec fn actions_view(a: Seq<FsAction>) -> Seq<ActionV> {
    a.map_values(|x: FsAction| x@)
}

/// `config.json`
pub open spec fn lit_config_json() -> Seq<u8> {
    seq![0x63, 0x6f, 0x6e, 0x66, 0x69, 0x67, 0x2e, 0x6a, 0x73, 0x6f, 0x6e]
}

/// `.json`
pub open spec fn lit_json_ext() -> Seq<u8> {
    seq![0x2e, 0x6a, 0x73, 0x6f, 0x6e]
}

/// `<index>-<type>_<name>`: the stored name of one block subdirectory.
/// The decimal index makes the name unique at each pipeline position.
pub open spec fn spec_dir_name(i: nat, btype: Seq<u8>, name: Seq<u8>) -> Seq<u8> {
    dec_digits(i) + seq![0x2du8] + btype + seq![0x5fu8] + name
}

/// Renders one block subdirectory name.
pub fn dir_name(i: u64, btype: &Vec<u8>, name: &Vec<u8>) -> (r: Vec<u8>)
    ensures
        r@ == spec_dir_name(i as nat, btype@, name@),
{
    let mut r = u64_to_dec(i);
    r.push(0x2d);
    push_bytes(&mut r, btype);
    r.push(0x5f);
    push_bytes(&mut r, name);
    proof {
        assert(r@ =~= spec_dir_name(i as nat, btype@, name@));
    }
    r
}

/// Blocks at different pipeline positions get distinct subdirectory
/// names even when their types and names coincide: repeated block names
/// never collide on disk.
pub proof fn lemma_dir_names_distinct(i: nat, j: nat, btype: Seq<u8>, name: Seq<u8>)
    requires
        i != j,
    ensures
        spec_dir_name(i, btype, name) != spec_dir_name(j, btype, name),
{
    let a = spec_dir_name(i, btype, name);
    let b = spec_dir_name(j, btype, name);
    let da = dec_digits(i);
    let db = dec_digits(j);
    if a == b {
        assert(a.len() == da.len() + 1 + btype.len() + 1 + name.len());
        assert(b.len() == db.len() + 1 + btype.len() + 1 + name.len());
        assert(da.len() == db.len());
        assert forall|t: int| 0 <= t < da.len() implies da[t] == #[trigger] db[t] by {
            assert(a[t] == da[t]);
            assert(b[t] == db[t]);
        }
        assert(da =~= db);
        lemma_dec_digits_injective(i, j);
    }
}

/// The identifier minted for counter value `c` under a prefix.
pub open spec fn spec_run_id(prefix: Seq<u8>, c: u64) -> Seq<u8> {
    prefix + seq![0x2du8] + dec_digits(c as nat)
}

/// Mints run identifiers: a caller-chosen prefix joined to a strictly
/// increasing counter. Two identifiers from one generator never
/// coincide; callers keep identifiers unique across processes by
/// choosing collision-free prefixes.
pub struct IdGenerator {
    prefix: Vec<u8>,
    counter: u64,
}

impl IdGenerator {
    /// The prefix every identifier of this generator carries.
    pub closed spec fn prefix_view(self) -> Seq<u8> {
        self.prefix@
    }

    /// The counter the next identifier will carry.
    pub closed spec fn counter_view(self) -> u64 {
        self.counter
    }

    /// A generator that counts up from zero under `prefix`.
    pub fn new(prefix: Vec<u8>) -> (r: IdGenerator)
        ensures
            r.prefix_view() == prefix@,
            r.counter_view() == 0,
    {
        IdGenerator { prefix, counter: 0 }
    }

    /// Mints the next identifier and advances the counter. The bound on
    /// the counter is a machine limit: a generator mints at most
    /// `u64::MAX` identifiers.
    pub fn next_id(&mut self) -> (r: Vec<u8>)
        requires
            old(self).counter_view() < u64::MAX,
        ensures
            final(self).prefix_view() == old(self).prefix_view(),
            final(self).counter_view() == old(self).counter_view() + 1,
            r@ == spec_run_id(old(self).prefix_view(), old(self).counter_view()),
    {
        let mut r = copy_bytes(&self.prefix);
        r.push(0x2d);
        let mut d = u64_to_dec(self.counter);
        r.append(&mut d);
        self.counter = self.counter + 1;
        proof {
            assert(r@ =~= spec_run_id(old(self).prefix_view(), old(self).counter_view()));
        }
        r
    }
}

/// Identifiers minted for different counter values never coincide; in
/// particular, two successive runs from one generator never share an
/// identifier.
pub proof fn lemma_run_ids_distinct(prefix: Seq<u8>, c1: u64, c2: u64)
    requires
        c1 != c2,
    ensures
        spec_run_id(prefix, c1) != spec_run_id(prefix, c2),
{
    let a = spec_run_id(prefix, c1);
    let b = spec_run_id(prefix, c2);
    let d1 = dec_digits(c1 as nat);
    let d2 = dec_digits(c2 as nat);
    let p = prefix.len() as int;
    if a == b {
        assert(a.len() == p + 1 + d1.len());
        assert(b.len() == p + 1 + d2.len());
        assert(d1.len() == d2.len());
        assert forall|t: int| 0 <= t < d1.len() implies d1[t] == #[trigger] d2[t] by {
            assert(a[p + 1 + t] == d1[t]);
            assert(b[p + 1 + t] == d2[t]);
        }
        assert(d1 =~= d2);
        lemma_dec_digits_injective(c1 as nat, c2 as nat);
    }
}

/// Mathematical content of a `Run`.
#[verifier::ext_equal]
pub struct RunV {
    pub run_id: Seq<u8>,
    pub config: RunConfigV,
    pub traces: Seq<TraceV>,
}

/// The per-entry views of a trace list.
pub open spec fn traces_view(
    ts: Seq<((Vec<u8>, Vec<u8>), Vec<Vec<BlockExecution>>)>,
) -> Seq<TraceV> {
    ts.map_values(
        |t: ((Vec<u8>, Vec<u8>), Vec<Vec<BlockExecution>>)|
            ((t.0.0@, t.0.1@), t.1@.map_values(|inp: Vec<BlockExecution>| execs_view(inp@))),
    )
}

/// One recorded execution of a pipeline: identity, launch
/// configuration, and the ordered trace the engine appends to.
pub struct Run {
    /// Assigned once at construction, never reassigned.
    run_id: Vec<u8>,
    /// Set at construction, immutable thereafter.
    config: RunConfig,
    /// In execution order: one entry per block reached, holding one
    /// list per input row, holding one result per fan-out branch. The
    /// engine appends entries here as blocks execute.
    pub traces: Vec<((Vec<u8>, Vec<u8>), Vec<Vec<BlockExecution>>)>,
}

impl View for Run {
    type V = RunV;

    closed spec fn view(&self) -> RunV {
        RunV { run_id: self.run_id@, config: self.config@, traces: traces_view(self.traces@) }
    }
}

/// The planned trace files of one block: `<dir>/<row>.json`, one per
/// input row in order, each holding that row's serialized results.
pub open spec fn spec_input_actions(ins: Seq<Seq<ExecV>>, dir: Seq<u8>, j: int) -> Seq<ActionV>
    decreases ins.len(),
{
    if ins.len() == 0 {
        Seq::empty()
    } else {
        seq![ActionV::WriteFile(
            dir + seq![0x2fu8] + dec_digits(j as nat) + lit_json_ext(),
            spec_ser_execs(ins[0]),
        )] + spec_input_actions(ins.drop_first(), dir, j + 1)
    }
}

/// The planned subdirectories of the traced blocks, in pipeline order.
pub open spec fn spec_block_actions(ts: Seq<TraceV>, run_id: Seq<u8>, i: int) -> Seq<ActionV>
    decreases ts.len(),
{
    if ts.len() == 0 {
        Seq::empty()
    } else {
        let dir = run_id + seq![0x2fu8] + spec_dir_name(i as nat, ts[0].0.0, ts[0].0.1);
        seq![ActionV::CreateDir(dir)] + spec_input_actions(ts[0].1, dir, 0)
            + spec_block_actions(ts.drop_first(), run_id, i + 1)
    }
}

/// The whole storage plan of a run: its directory, its `config.json`,
/// then for every trace entry in order one block subdirectory and one
/// trace file per input row. A block the engine never reached has no
/// entry and so nothing on disk.
pub open spec fn spec_store_plan(r: RunV) -> Seq<ActionV> {
    seq![
        ActionV::CreateDir(r.run_id),
        ActionV::WriteFile(r.run_id + seq![0x2fu8] + lit_config_json(), spec_ser_config(r.config)),
    ] + spec_block_actions(r.traces, r.run_id, 0)
}

fn lit_config_json_vec() -> (r: Vec<u8>)
    ensures
        r@ == lit_config_json(),
{
    let mut r: Vec<u8> = Vec::new();
    r.push(0x63); r.push(0x6f); r.push(0x6e); r.push(0x66); r.push(0x69); r.push(0x67);
    r.push(0x2e); r.push(0x6a); r.push(0x73); r.push(0x6f); r.push(0x6e);
    proof {
        assert(r@ =~= lit_config_json());
    }
    r
}

/// Plans the trace files of one block from input row `j` on.
fn plan_inputs(ins: &Vec<Vec<BlockExecution>>, dir: &Vec<u8>, j: usize, acts: &mut Vec<FsAction>)
    requires
        j <= ins@.len(),
    ensures
        actions_view(final(acts)@) == actions_view(old(acts)@) + spec_input_actions(
            ins@.map_values(|inp: Vec<BlockExecution>| execs_view(inp@)).skip(j as int),
            dir@,
            j as int,
        ),
    decreases ins@.len() - j,
{
    let ghost iv = ins@.map_values(|inp: Vec<BlockExecution>| execs_view(inp@));
    if j == ins.len() {
        proof {
            assert(iv.skip(j as int) =~= Seq::<Seq<ExecV>>::empty());
            assert(actions_view(acts@) =~= actions_view(acts@)
                + spec_input_actions(iv.skip(j as int), dir@, j as int));
        }
        return;
    }
    let mut path = copy_bytes(dir);
    path.push(0x2f);
    let mut d = u64_to_dec(j as u64);
    path.append(&mut d);
    path.push(0x2e); path.push(0x6a); path.push(0x73); path.push(0x6f); path.push(0x6e);
    proof {
        assert(path@ =~= dir@ + seq![0x2fu8] + dec_digits(j as nat) + lit_json_ext());
    }
    let content = serialize_execs(&ins[j]);
    let ghost a0 = acts@;
    acts.push(FsAction::WriteFile(path, content));
    let ghost a1 = acts@;
    plan_inputs(ins, dir, j + 1, acts);
    proof {
        assert(iv.skip(j as int)[0] == iv[j as int]);
        assert(iv.skip(j as int).drop_first() =~= iv.skip(j as int + 1));
        assert(actions_view(a1) =~= actions_view(a0).push(a1.last()@));
        assert(actions_view(acts@) =~= actions_view(a0)
            + spec_input_actions(iv.skip(j as int), dir@, j as int));
    }
}

/// Plans the subdirectories of the traced blocks from entry `i` on.
fn plan_blocks(
    ts: &Vec<((Vec<u8>, Vec<u8>), Vec<Vec<BlockExecution>>)>,
    run_id: &Vec<u8>,
    i: usize,
    acts: &mut Vec<FsAction>,
)
    requires
        i <= ts@.len(),
    ensures
        actions_view(final(acts)@) == actions_view(old(acts)@) + spec_block_actions(
            traces_view(ts@).skip(i as int),
            run_id@,
            i as int,
        ),
    decreases ts@.len() - i,
{
    let ghost tv = traces_view(ts@);
    if i == ts.len() {
        proof {
            assert(tv.skip(i as int) =~= Seq::<TraceV>::empty());
            assert(actions_view(acts@) =~= actions_view(acts@)
                + spec_block_actions(tv.skip(i as int), run_id@, i as int));
        }
        return;
    }
    let nm = dir_name(i as u64, &ts[i].0.0, &ts[i].0.1);
    let mut dir = copy_bytes(run_id);
    dir.push(0x2f);
    push_bytes(&mut dir, &nm);
    proof {
        assert(dir@ =~= run_id@ + seq![0x2fu8]
            + spec_dir_name(i as nat, tv[i as int].0.0, tv[i as int].0.1));
    }
    let ghost a0 = acts@;
    acts.push(FsAction::CreateDir(copy_bytes(&dir)));
    let ghost a1 = acts@;
    plan_inputs(&ts[i].1, &dir, 0, acts);
    plan_blocks(ts, run_id, i + 1, acts);
    proof {
        assert(tv.skip(i as int)[0] == tv[i as int]);
        assert(tv.skip(i as int).drop_first() =~= tv.skip(i as int + 1));
        assert(ts@[i as int].1@.map_values(|inp: Vec<BlockExecution>| execs_view(inp@))
            =~= tv[i as int].1);
        assert(ts@[i as int].1@.map_values(|inp: Vec<BlockExecution>| execs_view(inp@)).skip(0)
            =~= tv[i as int].1);
        assert(actions_view(a1) =~= actions_view(a0).push(a1.last()@));
        assert(actions_view(acts@) =~= actions_view(a0)
            + spec_block_actions(tv.skip(i as int), run_id@, i as int));
    }
}

/// Every result of one input row can take the stored form.
pub open spec fn rows_storable(rows: Seq<Seq<ExecV>>) -> bool {
    forall|j: int| 0 <= j < rows.len() ==> execs_wf(#[trigger] rows[j])
}

/// Every traced row of every block can take the stored form.
pub open spec fn traces_storable(ts: Seq<TraceV>) -> bool {
    forall|i: int| 0 <= i < ts.len() ==> rows_storable((#[trigger] ts[i]).1)
}

/// The whole run can take the stored form: a storable configuration
/// and storable trace rows. Strings never matter here — any bytes
/// store escaped; only a malformed JSON blob, a repeated block name,
/// or a `null` success value (indistinguishable from "no value" in
/// the stored object) is refused. `store` plans nothing for any other
/// run, so everything it writes reads back.
pub open spec fn run_storable(r: RunV) -> bool {
    r.config.wf() && traces_storable(r.traces)
}

/// Exact test for storability of a trace list.
fn traces_check(ts: &Vec<((Vec<u8>, Vec<u8>), Vec<Vec<BlockExecution>>)>) -> (r: bool)
    ensures
        r == traces_storable(traces_view(ts@)),
{
    let ghost tv = traces_view(ts@);
    let mut i: usize = 0;
    while i < ts.len()
        invariant
            0 <= i <= ts@.len(),
            tv == traces_view(ts@),
            forall|k: int| 0 <= k < i ==> rows_storable((#[trigger] tv[k]).1),
        decreases ts@.len() - i,
    {
        proof {
            assert(tv[i as int].1
                == ts@[i as int].1@.map_values(|inp: Vec<BlockExecution>| execs_view(inp@)));
        }
        let rows = &ts[i].1;
        let mut j: usize = 0;
        while j < rows.len()
            invariant
                0 <= i < ts@.len(),
                0 <= j <= ts@[i as int].1@.len(),
                tv == traces_view(ts@),
                tv[i as int].1
                    == ts@[i as int].1@.map_values(|inp: Vec<BlockExecution>| execs_view(inp@)),
                rows == &ts[i as int].1,
                forall|a: int| 0 <= a < j ==> execs_wf(#[trigger] tv[i as int].1[a]),
            decreases ts@[i as int].1@.len() - j,
        {
            proof {
                assert(tv[i as int].1[j as int] == execs_view(ts@[i as int].1@[j as int]@));
            }
            if !crate::trace::execs_check(&rows[j]) {
                return false;
            }
            j = j + 1;
        }
        i = i + 1;
    }
    true
}

impl Run {
    /// Creates a run: a fresh identifier from the generator, the given
    /// configuration, and an empty trace. Touches no storage.
    pub fn new(config: RunConfig, ids: &mut IdGenerator) -> (r: Run)
        requires
            old(ids).counter_view() < u64::MAX,
        ensures
            r@.run_id == spec_run_id(old(ids).prefix_view(), old(ids).counter_view()),
            r@.config == config@,
            r@.traces == Seq::<TraceV>::empty(),
            final(ids).prefix_view() == old(ids).prefix_view(),
            final(ids).counter_view() == old(ids).counter_view() + 1,
    {
        let run_id = ids.next_id();
        let r = Run { run_id, config, traces: Vec::new() };
        proof {
            assert(r@.traces =~= Seq::<TraceV>::empty());
        }
        r
    }

    /// The configuration this run was launched with.
    pub fn config(&self) -> (r: &RunConfig)
        ensures
            r@ == self@.config,
    {
        &self.config
    }

    /// The identifier assigned to this run at construction.
    pub fn run_id(&self) -> (r: &Vec<u8>)
        ensures
            r@ == self@.run_id,
    {
        &self.run_id
    }

    /// Decides a `store` request from the reported state of storage and
    /// plans its writes. Runs are write-once: nothing is ever planned
    /// over an existing run directory. A run whose data cannot take the
    /// stored form is refused outright, so everything a plan writes can
    /// be read back.
    pub fn store(&self, runs_dir_exists: bool, run_dir_exists: bool) -> (r: Result<
        Vec<FsAction>,
        RunError,
    >)
        ensures
            match r {
                Ok(acts) => runs_dir_exists && !run_dir_exists && run_storable(self@)
                    && actions_view(acts@) == spec_store_plan(self@),
                Err(e) => match e {
                    RunError::WorkspaceUninitialized => !runs_dir_exists,
                    RunError::AlreadyExists(id) => runs_dir_exists && run_dir_exists
                        && id@ == self@.run_id,
                    RunError::MalformedData(id) => runs_dir_exists && !run_dir_exists
                        && !run_storable(self@) && id@ == self@.run_id,
                    _ => false,
                },
            },
    {
        if !runs_dir_exists {
            return Err(RunError::WorkspaceUninitialized);
        }
        if run_dir_exists {
            return Err(RunError::AlreadyExists(copy_bytes(&self.run_id)));
        }
        if !self.config.wf_check() {
            return Err(RunError::MalformedData(copy_bytes(&self.run_id)));
        }
        if !traces_check(&self.traces) {
            return Err(RunError::MalformedData(copy_bytes(&self.run_id)));
        }
        let mut acts: Vec<FsAction> = Vec::new();
        acts.push(FsAction::CreateDir(copy_bytes(&self.run_id)));
        let mut cfg_path = copy_bytes(&self.run_id);
        cfg_path.push(0x2f);
        let cj = lit_config_json_vec();
        push_bytes(&mut cfg_path, &cj);
        proof {
            assert(cfg_path@ =~= self@.run_id + seq![0x2fu8] + lit_config_json());
        }
        acts.push(FsAction::WriteFile(cfg_path, serialize_config(&self.config)));
        let ghost a0 = acts@;
        plan_blocks(&self.traces, &self.run_id, 0, &mut acts);
        proof {
            assert(traces_view(self.traces@).skip(0) =~= traces_view(self.traces@));
            assert(actions_view(a0) =~= seq![
                ActionV::CreateDir(self@.run_id),
                ActionV::WriteFile(
                    self@.run_id + seq![0x2fu8] + lit_config_json(),
                    spec_ser_config(self@.config),
                ),
            ]);
            assert(actions_view(acts@) =~= spec_store_plan(self@));
        }
        Ok(acts)
    }

    /// Loads a run back: its stored configuration under its identifier,
    /// with an empty trace. Persisted trace files are not rehydrated
    /// here; the inspect path reads them back selectively.
    pub fn load(
        run_id: &Vec<u8>,
        runs_dir_exists: bool,
        run_dir_exists: bool,
        data: Option<Vec<u8>>,
    ) -> (r: Result<Run, RunError>)
        ensures
            match r {
                Ok(run) => {
                    &&& runs_dir_exists && run_dir_exists
                    &&& run@.run_id == run_id@
                    &&& run@.traces == Seq::<TraceV>::empty()
                    &&& data matches Some(d) && spec_parse_config(d@) == Some(run@.config)
                },
                Err(e) => match e {
                    RunError::WorkspaceUninitialized => !runs_dir_exists,
                    RunError::NotFound(id) => runs_dir_exists && !run_dir_exists
                        && id@ == run_id@,
                    RunError::IOFailure(id) => runs_dir_exists && run_dir_exists
                        && data is None && id@ == run_id@,
                    RunError::MalformedData(id) => runs_dir_exists && run_dir_exists
                        && (data matches Some(d) && spec_parse_config(d@) is None)
                        && id@ == run_id@,
                    _ => false,
                },
            },
    {
        match RunConfig::load(run_id, runs_dir_exists, run_dir_exists, data) {
            Ok(config) => {
                let run = Run { run_id: copy_bytes(run_id), config, traces: Vec::new() };
                proof {
                    assert(run@.traces =~= Seq::<TraceV>::empty());
                }
                Ok(run)
            },
            Err(e) => Err(e),
        }
    }
}

/// Round trip through storage: the `config.json` bytes that a run's
/// storage plan writes parse back to exactly the configuration the run
/// was launched with, for every storable configuration.
#[verifier::rlimit(60)]
pub proof fn lemma_store_load_round_trip(r: RunV)
    requires
        r.config.wf(),
    ensures
        spec_store_plan(r)[1] == ActionV::WriteFile(
            r.run_id + seq![0x2fu8] + lit_config_json(),
            spec_ser_config(r.config),
        ),
        spec_parse_config(spec_ser_config(r.config)) == Some(r.config),
{
    let pre = seq![
        ActionV::CreateDir(r.run_id),
        ActionV::WriteFile(r.run_id + seq![0x2fu8] + lit_config_json(), spec_ser_config(r.config)),
    ];
    assert(spec_store_plan(r) == pre + spec_block_actions(r.traces, r.run_id, 0));
    assert((pre + spec_block_actions(r.traces, r.run_id, 0))[1] == pre[1]);
    crate::config::lemma_config_round_trip(r.config);
}

/// The name component of a stored block directory: what follows the
/// first underscore, which `dir_name` places between type and name.
/// This reading relies on block types being single plain words without
/// underscores; block names themselves may contain them.
pub open spec fn spec_name_after(dir: Seq<u8>, i: int) -> Option<Seq<u8>>
    decreases dir.len() - i,
{
    if !(0 <= i < dir.len()) {
        None
    } else if dir[i] == 0x5f {
        Some(dir.subrange(i + 1, dir.len() as int))
    } else {
        spec_name_after(dir, i + 1)
    }
}

/// True when the stored directory name carries this block name.
pub open spec fn spec_dir_matches(dir: Seq<u8>, name: Seq<u8>) -> bool {
    spec_name_after(dir, 0) == Some(name)
}

/// Whether one stored directory name carries this block name,
/// independent of its index prefix.
pub fn dir_matches(dir: &Vec<u8>, name: &Vec<u8>) -> (r: bool)
    ensures
        r == spec_dir_matches(dir@, name@),
{
    let mut i: usize = 0;
    while i < dir.len()
        invariant
            0 <= i <= dir@.len(),
            spec_name_after(dir@, 0) == spec_name_after(dir@, i as int),
        decreases dir@.len() - i,
    {
        if dir[i] == 0x5f {
            let suffix = subvec(dir, i + 1, dir.len());
            return bytes_eq(&suffix, name);
        }
        i = i + 1;
    }
    false
}

/// The first stored subdirectory that carries this block name, if any:
/// `None` is the block-not-found case of an inspect query.
pub fn find_block_dir(dirs: &Vec<Vec<u8>>, name: &Vec<u8>) -> (r: Option<usize>)
    ensures
        match r {
            Some(k) => 0 <= k < dirs@.len() && spec_dir_matches(dirs@[k as int]@, name@)
                && forall|j: int| 0 <= j < k ==> !spec_dir_matches(dirs@[j]@, name@),
            None => forall|j: int| 0 <= j < dirs@.len() ==> !spec_dir_matches(dirs@[j]@, name@),
        },
{
    let mut i: usize = 0;
    while i < dirs.len()
        invariant
            0 <= i <= dirs@.len(),
            forall|j: int| 0 <= j < i ==> !spec_dir_matches(dirs@[j]@, name@),
        decreases dirs@.len() - i,
    {
        if dir_matches(&dirs[i], name) {
            return Some(i);
        }
        i = i + 1;
    }
    None
}

/// Reads back the trace files of one block, one per input row in the
/// order handed in; any malformed file fails the whole read, and the
/// caller reports which block it served.
pub fn parse_block_files(files: &Vec<Vec<u8>>) -> (r: Option<Vec<Vec<BlockExecution>>>)
    ensures
        match r {
            Some(rows) => rows@.len() == files@.len() && forall|j: int|
                0 <= j < rows@.len() ==> crate::trace::spec_parse_execs(files@[j]@)
                    == Some(execs_view(#[trigger] rows@[j]@)),
            None => exists|j: int|
                0 <= j < files@.len() && crate::trace::spec_parse_execs(#[trigger] files@[j]@)
                    is None,
        },
{
    let mut rows: Vec<Vec<BlockExecution>> = Vec::new();
    let mut i: usize = 0;
    while i < files.len()
        invariant
            0 <= i <= files@.len(),
            rows@.len() == i,
            forall|j: int| 0 <= j < i ==> crate::trace::spec_parse_execs(files@[j]@)
                == Some(execs_view(#[trigger] rows@[j]@)),
        decreases files@.len() - i,
    {
        match crate::trace::parse_execs(&files[i]) {
            Some(xs) => {
                rows.push(xs);
            },
            None => {
                return None;
            },
        }
        i = i + 1;
    }
    Some(rows)
}

} // verus!
