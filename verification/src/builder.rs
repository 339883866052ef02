use vstd::prelude::*;
use crate::path::{
    all_normal,
    render_path,
    spec_join,
    spec_leaf,
    spec_parent,
    LexPath,
    PartV,
    PathV,
};
use crate::glob::{scoped_match, ScopedGlobSet};

verus! {

/// The kind of link to create for every accepted file.
#[derive(Clone, Copy, Debug, PartialEq, Eq, Structural)]
pub enum LinkType {
    Hard,
    Symbolic,
}

/// The configuration of one whole run, invariant throughout it.
pub struct Config {
    /// The absolute directory under which every link is created.
    pub link_root: LexPath,
    /// How many directory levels below a directory target are walked;
    /// zero means only its immediate children.
    pub depth: usize,
    /// Symbolic or hard links.
    pub link_type: LinkType,
    /// Erase whatever occupies a destination before creating.
    pub overwrite: bool,
    /// Abort the whole run on the first link-creation failure.
    pub fail_fast: bool,
    /// Suppress per-link reporting.
    pub quiet: bool,
    /// Collapse each accepted file to its leaf name instead of keeping
    /// its relative directory structure.
    pub no_tree: bool,
    /// Let directory targets share the destination root directly instead
    /// of each getting its own named subfolder.
    pub combine: bool,
    /// Delete the whole destination root once, lazily, before the first
    /// destructive operation.
    pub purge: bool,
}

/// One filesystem entry walked below a directory target, described by its
/// path relative to that target.
pub struct Entry {
    pub rel: LexPath,
    pub is_file: bool,
}

/// One user-supplied source target, resolved to an absolute path; anything
/// that is neither a file nor a directory is silently skipped.
pub enum Target {
    File { path: LexPath },
    Dir { path: LexPath, entries: Vec<Entry> },
    Other,
}

/// One planned filesystem operation, in execution order.
pub enum Action {
    /// Delete the destination root and everything under it.
    EraseRoot { root: LexPath },
    /// Create this directory (and missing ancestors) unless it exists.
    EnsureDir { dir: LexPath },
    /// Create one link at `link` pointing at `original`.
    CreateLink { original: LexPath, link: LexPath },
}

/// Mathematical model of one planned operation.
#[verifier::ext_equal]
pub enum ActionV {
    EraseRoot { root: PathV },
    EnsureDir { dir: PathV },
    CreateLink { original: PathV, link: PathV },
}

impl View for Action {
    type V = ActionV;

    open spec fn view(&self) -> ActionV {
        match self {
            Action::EraseRoot { root } => ActionV::EraseRoot { root: root@ },
            Action::EnsureDir { dir } => ActionV::EnsureDir { dir: dir@ },
            Action::CreateLink { original, link } => ActionV::CreateLink {
                original: original@,
                link: link@,
            },
        }
    }
}

/// The models of a sequence of planned operations.
pub open spec fn actions_view(s: Seq<Action>) -> Seq<ActionV> {
    s.map_values(|a: Action| a@)
}

/// Appending an operation appends its model.
pub proof fn lemma_actions_view_push(s: Seq<Action>, a: Action)
    ensures
        actions_view(s.push(a)) == actions_view(s).push(a@),
{
    assert(actions_view(s.push(a)) =~= actions_view(s).push(a@));
}

/// The run's bookkeeping: whether the one-shot purge is still owed, and
/// which destination directories have already been ensured.
#[verifier::ext_equal]
pub struct PlanState {
    pub purge_pending: bool,
    pub ensured: Set<PathV>,
}

/// A stretch of planned operations together with the bookkeeping state
/// they leave behind.
#[verifier::ext_equal]
pub struct PlanStep {
    pub acts: Seq<ActionV>,
    pub st: PlanState,
}

/// The bookkeeping before any operation: purge owed exactly when asked
/// for, no directory ensured yet.
pub open spec fn spec_initial_state(cfg: Config) -> PlanState {
    PlanState { purge_pending: cfg.purge, ensured: Set::empty() }
}

/// The chores owed before a link is created in `dir`: the one-shot purge
/// of the destination root first, if still pending, then ensuring `dir`
/// itself unless already ensured this run.
pub open spec fn spec_chore(st: PlanState, root: PathV, dir: PathV) -> PlanStep {
    let pacts: Seq<ActionV> = if st.purge_pending {
        seq![ActionV::EraseRoot { root }]
    } else {
        Seq::empty()
    };
    if st.ensured.contains(dir) {
        PlanStep { acts: pacts, st: PlanState { purge_pending: false, ensured: st.ensured } }
    } else {
        PlanStep {
            acts: pacts.push(ActionV::EnsureDir { dir }),
            st: PlanState { purge_pending: false, ensured: st.ensured.insert(dir) },
        }
    }
}

/// One link's worth of planning: the chores for its parent directory,
/// then the creation itself.
pub open spec fn spec_link_step(
    st: PlanState,
    root: PathV,
    dir: PathV,
    original: PathV,
    link: PathV,
) -> PlanStep {
    let c = spec_chore(st, root, dir);
    PlanStep { acts: c.acts.push(ActionV::CreateLink { original, link }), st: c.st }
}

/// Whether the filter accepts a relative path; no filter accepts
/// everything.
pub open spec fn spec_accepted(glob: Option<ScopedGlobSet>, rel: PathV) -> bool {
    match glob {
        None => true,
        Some(g) => scoped_match(g.path_pats(), g.leaf_pats(), render_path(rel), spec_leaf(rel)),
    }
}

/// Whether the walk reaches this relative path: at least one component,
/// and no more than `depth` directory levels below the target.
pub open spec fn spec_visited(rel: PathV, depth: usize) -> bool {
    1 <= rel.parts.len() && rel.parts.len() - 1 <= depth
}

/// Whether a walked entry gets a link: within depth, accepted by the
/// filter, and a regular file.
pub open spec fn spec_entry_linked(e: Entry, depth: usize, glob: Option<ScopedGlobSet>) -> bool {
    spec_visited(e.rel@, depth) && spec_accepted(glob, e.rel@) && e.is_file
}

/// Where a directory target's links live: the destination root itself
/// when combining, else a subfolder named after the target (or the root
/// itself for a target with no name).
pub open spec fn spec_dir_root(root: PathV, target: PathV, combine: bool) -> PathV {
    if combine {
        root
    } else {
        match spec_leaf(target) {
            Some(name) => PathV {
                absolute: root.absolute,
                parts: root.parts.push(PartV::Normal(name)),
            },
            None => root,
        }
    }
}

/// Where one accepted file's link goes: under the directory target's
/// destination, keeping the file's relative structure, or flattened to
/// its leaf name alone.
pub open spec fn spec_dir_link(droot: PathV, rel: PathV, no_tree: bool) -> PathV {
    if no_tree {
        PathV {
            absolute: droot.absolute,
            parts: droot.parts.push(PartV::Normal(spec_leaf(rel).unwrap())),
        }
    } else {
        spec_join(droot, rel)
    }
}

/// The plan for the entries walked below one directory target, in walk
/// order, threading the bookkeeping through.
pub open spec fn spec_plan_entries(
    entries: Seq<Entry>,
    st: PlanState,
    cfg: Config,
    glob: Option<ScopedGlobSet>,
    target: PathV,
    droot: PathV,
) -> PlanStep
    decreases entries.len(),
{
    if entries.len() == 0 {
        PlanStep { acts: Seq::empty(), st }
    } else {
        let e = entries.first();
        let step = if spec_entry_linked(e, cfg.depth, glob) {
            let link = spec_dir_link(droot, e.rel@, cfg.no_tree);
            spec_link_step(
                st,
                cfg.link_root@,
                spec_parent(link),
                spec_join(target, e.rel@),
                link,
            )
        } else {
            PlanStep { acts: Seq::empty(), st }
        };
        let rest = spec_plan_entries(entries.drop_first(), step.st, cfg, glob, target, droot);
        PlanStep { acts: step.acts + rest.acts, st: rest.st }
    }
}

/// The plan for one source target. A file target is linked under the
/// destination root by its own name; a directory target contributes one
/// link per accepted walked file; anything else contributes nothing.
pub open spec fn spec_plan_target(
    t: Target,
    st: PlanState,
    cfg: Config,
    glob: Option<ScopedGlobSet>,
) -> PlanStep {
    match t {
        Target::File { path } => {
            let link = PathV {
                absolute: cfg.link_root@.absolute,
                parts: cfg.link_root@.parts.push(PartV::Normal(spec_leaf(path@).unwrap())),
            };
            spec_link_step(st, cfg.link_root@, cfg.link_root@, path@, link)
        }
        Target::Dir { path, entries } => spec_plan_entries(
            entries@,
            st,
            cfg,
            glob,
            path@,
            spec_dir_root(cfg.link_root@, path@, cfg.combine),
        ),
        Target::Other => PlanStep { acts: Seq::empty(), st },
    }
}

/// The whole run's plan: the targets in the order supplied, threading the
/// one-shot purge and the ensured-directories bookkeeping through.
pub open spec fn spec_plan(
    targets: Seq<Target>,
    st: PlanState,
    cfg: Config,
    glob: Option<ScopedGlobSet>,
) -> PlanStep
    decreases targets.len(),
{
    if targets.len() == 0 {
        PlanStep { acts: Seq::empty(), st }
    } else {
        let step = spec_plan_target(targets.first(), st, cfg, glob);
        let rest = spec_plan(targets.drop_first(), step.st, cfg, glob);
        PlanStep { acts: step.acts + rest.acts, st: rest.st }
    }
}

/// What a run demands of its inputs: an absolute destination root, and
/// targets as the resolver and the walk hand them over.
pub open spec fn spec_target_wf(t: Target) -> bool {
    match t {
        Target::File { path } => path@.absolute && spec_leaf(path@) is Some,
        Target::Dir { path, entries } => path@.absolute && forall|j: int|
            0 <= j < entries@.len() ==> (!entries@[j].rel@.absolute && all_normal(
                entries@[j].rel@.parts,
            )),
        Target::Other => true,
    }
}

/// Preconditions of the whole run.
pub open spec fn spec_run_pre(cfg: Config, targets: Seq<Target>) -> bool {
    cfg.link_root@.absolute && forall|i: int| 0 <= i < targets.len() ==> spec_target_wf(targets[i])
}

/// The memoized set is exactly the paths held in the vector.
pub open spec fn ensured_inv(v: Seq<LexPath>, s: Set<PathV>) -> bool {
    forall|p: PathV| s.contains(p) <==> (exists|k: int| 0 <= k < v.len() && v[k]@ == p)
}

fn contains_path(v: &Vec<LexPath>, p: &LexPath) -> (r: bool)
    ensures
        r == exists|k: int| 0 <= k < v@.len() && v@[k]@ == p@,
{
    let mut i: usize = 0;
    while i < v.len()
        invariant
            i <= v.len(),
            forall|k: int| 0 <= k < i ==> v@[k]@ != p@,
        decreases v.len() - i,
    {
        if v[i].path_eq(p) {
            return true;
        }
        i += 1;
    }
    false
}

/// Emit the chores owed before a link is created in `dir`, updating the
/// run's bookkeeping.
fn chore(
    root: &LexPath,
    dir: &LexPath,
    plan: &mut Vec<Action>,
    purge_pending: &mut bool,
    ensured: &mut Vec<LexPath>,
    Ghost(st): Ghost<PlanState>,
) -> (gst: Ghost<PlanState>)
    requires
        st.purge_pending == *old(purge_pending),
        ensured_inv(old(ensured)@, st.ensured),
    ensures
        ({
            let c = spec_chore(st, root@, dir@);
            gst@ == c.st && actions_view(final(plan)@) == actions_view(old(plan)@) + c.acts
                && *final(purge_pending) == c.st.purge_pending && ensured_inv(
                final(ensured)@,
                c.st.ensured,
            )
        }),
{
    let ghost c = spec_chore(st, root@, dir@);
    let ghost plan0 = plan@;
    if *purge_pending {
        plan.push(Action::EraseRoot { root: root.clone() });
        *purge_pending = false;
        proof {
            lemma_actions_view_push(plan0, plan@.last());
        }
    }
    proof {
        assert(actions_view(plan@) =~= actions_view(plan0) + (if st.purge_pending {
            seq![ActionV::EraseRoot { root: root@ }]
        } else {
            Seq::<ActionV>::empty()
        }));
    }
    let ghost plan1 = plan@;
    let ghost ens0 = ensured@;
    if !contains_path(ensured, dir) {
        proof {
            assert(!st.ensured.contains(dir@));
        }
        plan.push(Action::EnsureDir { dir: dir.clone() });
        ensured.push(dir.clone());
        proof {
            lemma_actions_view_push(plan1, plan@.last());
            assert(actions_view(plan@) =~= actions_view(plan0) + c.acts);
            assert forall|p: PathV| c.st.ensured.contains(p) <==> (exists|k: int|
                0 <= k < ensured@.len() && ensured@[k]@ == p) by {
                if p == dir@ {
                    assert(ensured@[ensured@.len() - 1]@ == p);
                    assert(c.st.ensured.contains(p));
                } else {
                    if st.ensured.contains(p) {
                        let k = choose|k: int| 0 <= k < ens0.len() && ens0[k]@ == p;
                        assert(ensured@[k]@ == p);
                    }
                    if exists|k: int| 0 <= k < ensured@.len() && ensured@[k]@ == p {
                        let k = choose|k: int| 0 <= k < ensured@.len() && ensured@[k]@ == p;
                        assert(k < ens0.len());
                        assert(st.ensured.contains(p));
                    }
                }
            }
        }
        Ghost(c.st)
    } else {
        proof {
            assert(st.ensured.contains(dir@));
            assert(actions_view(plan@) =~= actions_view(plan0) + c.acts);
        }
        Ghost(c.st)
    }
}

/// The outcome of checking a link entry before creation.
#[derive(Clone, Copy, Debug, PartialEq, Eq, Structural)]
pub enum LinkCheck {
    /// Both paths are absolute and distinct: creation may proceed.
    Creatable,
    /// A path is not absolute: a bug in the caller, not a user error.
    NotAbsolute,
    /// The intended link points at itself.
    PointsToItself,
}

/// The checks owed before any link entry reaches the filesystem: both
/// paths must be absolute — anything else is a caller bug — and the link
/// must not point at itself.
pub fn check_link_pair(original: &LexPath, link: &LexPath) -> (r: LinkCheck)
    ensures
        (r == LinkCheck::NotAbsolute <==> !(original@.absolute && link@.absolute)),
        (r == LinkCheck::PointsToItself <==> (original@.absolute && link@.absolute && original@
            == link@)),
        (r == LinkCheck::Creatable <==> (original@.absolute && link@.absolute && original@
            != link@)),
{
    if !original.absolute || !link.absolute {
        LinkCheck::NotAbsolute
    } else if original.path_eq(link) {
        LinkCheck::PointsToItself
    } else {
        LinkCheck::Creatable
    }
}

/// Whether the filter (when one was supplied) accepts this relative path;
/// no filter means every path is accepted.
pub fn is_path_accepted(rel: &LexPath, maybe_glob: &Option<ScopedGlobSet>) -> (r: bool)
    ensures
        r == spec_accepted(*maybe_glob, rel@),
{
    match maybe_glob {
        None => true,
        Some(g) => g.is_match(rel),
    }
}

/// Plan the whole run: for each source target in the order supplied, the
/// links to create and the chores owed before each — the one-shot lazy
/// purge, then lazily ensuring each link's parent directory, memoized per
/// distinct directory — exactly as `spec_plan` lays them out.
pub fn run(cfg: &Config, targets: &Vec<Target>, glob: &Option<ScopedGlobSet>) -> (r: Vec<Action>)
    requires
        spec_run_pre(*cfg, targets@),
    ensures
        actions_view(r@) == spec_plan(targets@, spec_initial_state(*cfg), *cfg, *glob).acts,
{
    let mut plan: Vec<Action> = Vec::new();
    let mut purge_pending = cfg.purge;
    let mut ensured: Vec<LexPath> = Vec::new();
    let ghost st0 = spec_initial_state(*cfg);
    let ghost full = spec_plan(targets@, st0, *cfg, *glob);
    let ghost mut st = st0;
    proof {
        assert(targets@.skip(0) =~= targets@);
        assert(actions_view(plan@) =~= Seq::<ActionV>::empty());
        assert(Seq::<ActionV>::empty() + full.acts =~= full.acts);
    }
    let mut ti: usize = 0;
    while ti < targets.len()
        invariant
            ti <= targets.len(),
            spec_run_pre(*cfg, targets@),
            full == spec_plan(targets@, st0, *cfg, *glob),
            st.purge_pending == purge_pending,
            ensured_inv(ensured@, st.ensured),
            full.acts == actions_view(plan@) + spec_plan(
                targets@.skip(ti as int),
                st,
                *cfg,
                *glob,
            ).acts,
            full.st == spec_plan(targets@.skip(ti as int), st, *cfg, *glob).st,
        decreases targets.len() - ti,
    {
        let ghost rem = targets@.skip(ti as int);
        let ghost st_in = st;
        let ghost tstep = spec_plan_target(targets@[ti as int], st_in, *cfg, *glob);
        let ghost plan_t0 = plan@;
        proof {
            assert(rem.first() == targets@[ti as int]);
            assert(rem.drop_first() =~= targets@.skip(ti + 1));
            assert(spec_target_wf(targets@[ti as int]));
        }
        match &targets[ti] {
            Target::Other => {
                proof {
                    assert(tstep.acts =~= Seq::<ActionV>::empty());
                    assert(tstep.acts + spec_plan(targets@.skip(ti + 1), st, *cfg, *glob).acts
                        =~= spec_plan(targets@.skip(ti + 1), st, *cfg, *glob).acts);
                }
            }
            Target::File { path } => {
                let leaf = path.leaf().unwrap();
                let link = cfg.link_root.join_one(&leaf);
                let ghost linkv = link@;
                let ghost c = spec_chore(st_in, cfg.link_root@, cfg.link_root@);
                let gst = chore(
                    &cfg.link_root,
                    &cfg.link_root,
                    &mut plan,
                    &mut purge_pending,
                    &mut ensured,
                    Ghost(st),
                );
                proof {
                    st = gst@;
                }
                let ghost plan_e = plan@;
                plan.push(Action::CreateLink { original: path.clone(), link });
                proof {
                    lemma_actions_view_push(plan_e, plan@.last());
                    assert(linkv =~= PathV {
                        absolute: cfg.link_root@.absolute,
                        parts: cfg.link_root@.parts.push(
                            PartV::Normal(spec_leaf(path@).unwrap()),
                        ),
                    });
                    assert(tstep =~= PlanStep {
                        acts: c.acts.push(ActionV::CreateLink { original: path@, link: linkv }),
                        st: c.st,
                    });
                    assert(actions_view(plan@) =~= actions_view(plan_t0) + tstep.acts);
                    assert(st == tstep.st);
                    assert(actions_view(plan_t0) + (tstep.acts + spec_plan(
                        targets@.skip(ti + 1),
                        tstep.st,
                        *cfg,
                        *glob,
                    ).acts) =~= actions_view(plan@) + spec_plan(
                        targets@.skip(ti + 1),
                        tstep.st,
                        *cfg,
                        *glob,
                    ).acts);
                }
            }
            Target::Dir { path, entries } => {
                let droot = if cfg.combine {
                    cfg.link_root.clone()
                } else {
                    match path.leaf() {
                        Some(name) => cfg.link_root.join_one(&name),
                        None => cfg.link_root.clone(),
                    }
                };
                proof {
                    assert(droot@ =~= spec_dir_root(cfg.link_root@, path@, cfg.combine));
                }
                let ghost efull = spec_plan_entries(entries@, st_in, *cfg, *glob, path@, droot@);
                proof {
                    assert(entries@.skip(0) =~= entries@);
                    assert(tstep == efull);
                }
                let mut ei: usize = 0;
                while ei < entries.len()
                    invariant
                        ei <= entries.len(),
                        forall|j: int|
                            0 <= j < entries@.len() ==> (!entries@[j].rel@.absolute && all_normal(
                                entries@[j].rel@.parts,
                            )),
                        droot@ == spec_dir_root(cfg.link_root@, path@, cfg.combine),
                        efull == spec_plan_entries(entries@, st_in, *cfg, *glob, path@, droot@),
                        st.purge_pending == purge_pending,
                        ensured_inv(ensured@, st.ensured),
                        actions_view(plan_t0) + efull.acts == actions_view(plan@)
                            + spec_plan_entries(
                            entries@.skip(ei as int),
                            st,
                            *cfg,
                            *glob,
                            path@,
                            droot@,
                        ).acts,
                        efull.st == spec_plan_entries(
                            entries@.skip(ei as int),
                            st,
                            *cfg,
                            *glob,
                            path@,
                            droot@,
                        ).st,
                    decreases entries.len() - ei,
                {
                    let ghost erem = entries@.skip(ei as int);
                    let ghost est_in = st;
                    let ghost plan_i = plan@;
                    proof {
                        assert(erem.first() == entries@[ei as int]);
                        assert(erem.drop_first() =~= entries@.skip(ei + 1));
                    }
                    let e = &entries[ei];
                    let visited = e.rel.parts.len() >= 1 && e.rel.parts.len() - 1 <= cfg.depth;
                    let linked = visited && is_path_accepted(&e.rel, glob) && e.is_file;
                    proof {
                        assert(e.rel@.parts.len() == e.rel.parts@.len());
                        assert(linked == spec_entry_linked(entries@[ei as int], cfg.depth, *glob));
                    }
                    if linked {
                        let original = path.join(&e.rel);
                        let link = if cfg.no_tree {
                            proof {
                                assert(e.rel@.parts.last() is Normal);
                            }
                            let lf = e.rel.leaf().unwrap();
                            droot.join_one(&lf)
                        } else {
                            droot.join(&e.rel)
                        };
                        let ghost originalv = original@;
                        let ghost linkv = link@;
                        let ghost ls = spec_link_step(
                            est_in,
                            cfg.link_root@,
                            spec_parent(linkv),
                            originalv,
                            linkv,
                        );
                        let parentd = link.parent();
                        let gst = chore(
                            &cfg.link_root,
                            &parentd,
                            &mut plan,
                            &mut purge_pending,
                            &mut ensured,
                            Ghost(st),
                        );
                        proof {
                            st = gst@;
                        }
                        let ghost plan_e = plan@;
                        plan.push(Action::CreateLink { original, link });
                        proof {
                            lemma_actions_view_push(plan_e, plan@.last());
                            assert(linkv =~= spec_dir_link(
                                droot@,
                                entries@[ei as int].rel@,
                                cfg.no_tree,
                            ));
                            assert(originalv == spec_join(path@, entries@[ei as int].rel@));
                            assert(actions_view(plan@) =~= actions_view(plan_i) + ls.acts);
                            assert(st == ls.st);
                            let rest = spec_plan_entries(
                                entries@.skip(ei + 1),
                                ls.st,
                                *cfg,
                                *glob,
                                path@,
                                droot@,
                            );
                            assert(spec_plan_entries(erem, est_in, *cfg, *glob, path@, droot@).acts
                                == ls.acts + rest.acts);
                            assert(actions_view(plan_i) + (ls.acts + rest.acts) =~= actions_view(
                                plan@,
                            ) + rest.acts);
                        }
                    } else {
                        proof {
                            let rest = spec_plan_entries(
                                entries@.skip(ei + 1),
                                st,
                                *cfg,
                                *glob,
                                path@,
                                droot@,
                            );
                            assert(spec_plan_entries(erem, est_in, *cfg, *glob, path@, droot@).acts
                                =~= rest.acts);
                        }
                    }
                    ei += 1;
                }
                proof {
                    assert(entries@.skip(entries@.len() as int) =~= Seq::<Entry>::empty());
                    assert(actions_view(plan_t0) + efull.acts =~= actions_view(plan@));
                    assert(st == efull.st);
                    assert(actions_view(plan_t0) + (tstep.acts + spec_plan(
                        targets@.skip(ti + 1),
                        tstep.st,
                        *cfg,
                        *glob,
                    ).acts) =~= actions_view(plan@) + spec_plan(
                        targets@.skip(ti + 1),
                        tstep.st,
                        *cfg,
                        *glob,
                    ).acts);
                }
            }
        }
        ti += 1;
    }
    proof {
        assert(targets@.skip(targets@.len() as int) =~= Seq::<Target>::empty());
        assert(actions_view(plan@) + Seq::<ActionV>::empty() =~= actions_view(plan@));
    }
    plan
}

/// Depth limiting: below a directory target, only entries within the
/// depth bound are ever linked. Every link planned for the walked entries
/// stems from some entry that is a file, accepted by the filter, and no
/// deeper than `depth` directory levels below the target.
pub proof fn lemma_depth_limited(
    entries: Seq<Entry>,
    st: PlanState,
    cfg: Config,
    glob: Option<ScopedGlobSet>,
    target: PathV,
    droot: PathV,
)
    ensures
        ({
            let acts = spec_plan_entries(entries, st, cfg, glob, target, droot).acts;
            forall|k: int|
                0 <= k < acts.len() && #[trigger] acts[k] is CreateLink ==> exists|j: int|
                    0 <= j < entries.len() && spec_entry_linked(
                        #[trigger] entries[j],
                        cfg.depth,
                        glob,
                    ) && entries[j].rel@.parts.len() - 1 <= cfg.depth && acts[k]
                        == ActionV::CreateLink {
                        original: spec_join(target, entries[j].rel@),
                        link: spec_dir_link(droot, entries[j].rel@, cfg.no_tree),
                    }
        }),
    decreases entries.len(),
{
    let res = spec_plan_entries(entries, st, cfg, glob, target, droot);
    if entries.len() == 0 {
    } else {
        let e = entries.first();
        let step = if spec_entry_linked(e, cfg.depth, glob) {
            let link = spec_dir_link(droot, e.rel@, cfg.no_tree);
            spec_link_step(st, cfg.link_root@, spec_parent(link), spec_join(target, e.rel@), link)
        } else {
            PlanStep { acts: Seq::empty(), st }
        };
        let rest_entries = entries.drop_first();
        let rest = spec_plan_entries(rest_entries, step.st, cfg, glob, target, droot);
        lemma_depth_limited(rest_entries, step.st, cfg, glob, target, droot);
        assert forall|k: int|
            0 <= k < res.acts.len() && #[trigger] res.acts[k] is CreateLink implies exists|j: int|
            0 <= j < entries.len() && spec_entry_linked(#[trigger] entries[j], cfg.depth, glob)
                && entries[j].rel@.parts.len() - 1 <= cfg.depth && res.acts[k]
                == ActionV::CreateLink {
                original: spec_join(target, entries[j].rel@),
                link: spec_dir_link(droot, entries[j].rel@, cfg.no_tree),
            } by {
            if k < step.acts.len() {
                assert(spec_entry_linked(e, cfg.depth, glob));
                assert(k == step.acts.len() - 1);
                assert(entries[0] == e);
                assert(res.acts[k] == step.acts[k]);
                assert(spec_entry_linked(entries[0], cfg.depth, glob) && entries[0].rel@.parts.len()
                    - 1 <= cfg.depth && res.acts[k] == ActionV::CreateLink {
                    original: spec_join(target, entries[0].rel@),
                    link: spec_dir_link(droot, entries[0].rel@, cfg.no_tree),
                });
            } else {
                let k2 = k - step.acts.len();
                assert(res.acts[k] == rest.acts[k2]);
                let j2 = choose|j: int|
                    0 <= j < rest_entries.len() && spec_entry_linked(
                        #[trigger] rest_entries[j],
                        cfg.depth,
                        glob,
                    ) && rest_entries[j].rel@.parts.len() - 1 <= cfg.depth && rest.acts[k2]
                        == ActionV::CreateLink {
                        original: spec_join(target, rest_entries[j].rel@),
                        link: spec_dir_link(droot, rest_entries[j].rel@, cfg.no_tree),
                    };
                assert(entries[j2 + 1] == rest_entries[j2]);
                assert(spec_entry_linked(entries[j2 + 1], cfg.depth, glob) && entries[j2
                    + 1].rel@.parts.len() - 1 <= cfg.depth && res.acts[k] == ActionV::CreateLink {
                    original: spec_join(target, entries[j2 + 1].rel@),
                    link: spec_dir_link(droot, entries[j2 + 1].rel@, cfg.no_tree),
                });
            }
        }
    }
}

/// One destination path lies at or below another.
pub open spec fn spec_under(p: PathV, root: PathV) -> bool {
    p.absolute == root.absolute && root.parts.is_prefix_of(p.parts)
}

/// No action in the stretch erases the destination root.
pub open spec fn no_erase(acts: Seq<ActionV>) -> bool {
    forall|k: int| 0 <= k < acts.len() ==> !((#[trigger] acts[k]) is EraseRoot)
}

/// Every link created in the stretch lies below the destination root.
pub open spec fn links_under(acts: Seq<ActionV>, root: PathV) -> bool {
    forall|k: int|
        0 <= k < acts.len() ==> ((#[trigger] acts[k]) matches ActionV::CreateLink { link, .. }
            ==> spec_under(link, root))
}

/// The shape every planned stretch has: links stay under the destination
/// root; the root is erased at most once, only as the very first action,
/// and only when the purge was still pending; and the bookkeeping moves
/// only when something was emitted.
pub open spec fn plan_wf(acts: Seq<ActionV>, s0: PlanState, s1: PlanState, root: PathV) -> bool {
    links_under(acts, root) && (s1.purge_pending ==> s0.purge_pending && acts.len() == 0) && (
    !s0.purge_pending ==> no_erase(acts)) && ((s0.purge_pending && acts.len() > 0) ==> (acts[0]
        == (ActionV::EraseRoot { root }) && no_erase(acts.skip(1)))) && (acts.len() == 0 ==> s1
        == s0)
}

proof fn lemma_wf_compose(
    a1: Seq<ActionV>,
    a2: Seq<ActionV>,
    s0: PlanState,
    s1: PlanState,
    s2: PlanState,
    root: PathV,
)
    requires
        plan_wf(a1, s0, s1, root),
        plan_wf(a2, s1, s2, root),
    ensures
        plan_wf(a1 + a2, s0, s2, root),
{
    let a = a1 + a2;
    assert forall|k: int| 0 <= k < a.len() implies ((#[trigger] a[k])
        matches ActionV::CreateLink { link, .. } ==> spec_under(link, root)) by {
        if k < a1.len() {
            assert(a[k] == a1[k]);
        } else {
            assert(a[k] == a2[k - a1.len()]);
        }
    }
    if a1.len() == 0 {
        assert(s1 == s0);
        assert(a =~= a2);
    } else {
        assert(!s1.purge_pending);
        if !s0.purge_pending {
            assert forall|k: int| 0 <= k < a.len() implies !((#[trigger] a[k]) is EraseRoot) by {
                if k < a1.len() {
                    assert(a[k] == a1[k]);
                } else {
                    assert(a[k] == a2[k - a1.len()]);
                }
            }
        } else {
            assert(a[0] == a1[0]);
            assert(a1[0] == (ActionV::EraseRoot { root }));
            assert forall|k: int| 0 <= k < a.skip(1).len() implies !((#[trigger] a.skip(
                1,
            )[k]) is EraseRoot) by {
                if k < a1.len() - 1 {
                    assert(a.skip(1)[k] == a1.skip(1)[k]);
                } else {
                    assert(a.skip(1)[k] == a2[k - (a1.len() - 1)]);
                }
            }
        }
    }
}

proof fn lemma_wf_chore(st: PlanState, root: PathV, dir: PathV)
    ensures
        ({
            let c = spec_chore(st, root, dir);
            plan_wf(c.acts, st, c.st, root)
        }),
{
    let c = spec_chore(st, root, dir);
    if st.purge_pending {
        if st.ensured.contains(dir) {
            assert(c.acts[0] == (ActionV::EraseRoot { root }));
            assert(c.acts.skip(1) =~= Seq::<ActionV>::empty());
        } else {
            assert(c.acts[0] == (ActionV::EraseRoot { root }));
            assert(c.acts.skip(1) =~= seq![ActionV::EnsureDir { dir }]);
        }
    } else {
        if c.acts.len() == 0 {
            assert(c.st =~= st);
        }
    }
}

proof fn lemma_wf_link_step(st: PlanState, root: PathV, dir: PathV, original: PathV, link: PathV)
    requires
        spec_under(link, root),
    ensures
        ({
            let ls = spec_link_step(st, root, dir, original, link);
            plan_wf(ls.acts, st, ls.st, root)
        }),
{
    let c = spec_chore(st, root, dir);
    let ls = spec_link_step(st, root, dir, original, link);
    lemma_wf_chore(st, root, dir);
    let tail = seq![ActionV::CreateLink { original, link }];
    assert(plan_wf(tail, c.st, c.st, root));
    lemma_wf_compose(c.acts, tail, st, c.st, c.st, root);
    assert(ls.acts =~= c.acts + tail);
}

proof fn lemma_wf_entries(
    entries: Seq<Entry>,
    st: PlanState,
    cfg: Config,
    glob: Option<ScopedGlobSet>,
    target: PathV,
    droot: PathV,
)
    requires
        spec_under(droot, cfg.link_root@),
        forall|j: int| 0 <= j < entries.len() ==> !(#[trigger] entries[j]).rel@.absolute,
    ensures
        ({
            let res = spec_plan_entries(entries, st, cfg, glob, target, droot);
            plan_wf(res.acts, st, res.st, cfg.link_root@)
        }),
    decreases entries.len(),
{
    let root = cfg.link_root@;
    let res = spec_plan_entries(entries, st, cfg, glob, target, droot);
    if entries.len() == 0 {
    } else {
        let e = entries.first();
        let step = if spec_entry_linked(e, cfg.depth, glob) {
            let link = spec_dir_link(droot, e.rel@, cfg.no_tree);
            spec_link_step(st, root, spec_parent(link), spec_join(target, e.rel@), link)
        } else {
            PlanStep { acts: Seq::empty(), st }
        };
        if spec_entry_linked(e, cfg.depth, glob) {
            let link = spec_dir_link(droot, e.rel@, cfg.no_tree);
            assert(spec_under(link, root)) by {
                assert(root.parts =~= droot.parts.subrange(0, root.parts.len() as int));
                if cfg.no_tree {
                    assert(link.parts.subrange(0, root.parts.len() as int) =~= droot.parts.subrange(
                        0,
                        root.parts.len() as int,
                    ));
                } else {
                    assert(link.parts == droot.parts + e.rel@.parts);
                    assert(link.parts.subrange(0, root.parts.len() as int) =~= droot.parts.subrange(
                        0,
                        root.parts.len() as int,
                    ));
                }
            }
            lemma_wf_link_step(st, root, spec_parent(link), spec_join(target, e.rel@), link);
        }
        let rest = spec_plan_entries(entries.drop_first(), step.st, cfg, glob, target, droot);
        lemma_wf_entries(entries.drop_first(), step.st, cfg, glob, target, droot);
        lemma_wf_compose(step.acts, rest.acts, st, step.st, rest.st, root);
    }
}

/// Every whole-run plan is well shaped: its links stay under the
/// destination root, and the root is erased at most once, first, and only
/// when the purge was requested.
pub proof fn lemma_wf_plan(
    targets: Seq<Target>,
    st: PlanState,
    cfg: Config,
    glob: Option<ScopedGlobSet>,
)
    requires
        spec_run_pre(cfg, targets),
    ensures
        ({
            let res = spec_plan(targets, st, cfg, glob);
            plan_wf(res.acts, st, res.st, cfg.link_root@)
        }),
    decreases targets.len(),
{
    let root = cfg.link_root@;
    let res = spec_plan(targets, st, cfg, glob);
    if targets.len() == 0 {
    } else {
        let t = targets.first();
        assert(spec_target_wf(targets[0]));
        let step = spec_plan_target(t, st, cfg, glob);
        match t {
            Target::File { path } => {
                let link = PathV {
                    absolute: root.absolute,
                    parts: root.parts.push(PartV::Normal(spec_leaf(path@).unwrap())),
                };
                assert(spec_under(link, root)) by {
                    assert(root.parts =~= link.parts.subrange(0, root.parts.len() as int));
                }
                lemma_wf_link_step(st, root, root, path@, link);
            }
            Target::Dir { path, entries } => {
                let droot = spec_dir_root(root, path@, cfg.combine);
                assert(spec_under(droot, root)) by {
                    assert(root.parts =~= droot.parts.subrange(0, root.parts.len() as int));
                }
                lemma_wf_entries(entries@, st, cfg, glob, path@, droot);
            }
            Target::Other => {}
        }
        let rest = spec_plan(targets.drop_first(), step.st, cfg, glob);
        assert(spec_run_pre(cfg, targets.drop_first())) by {
            assert(forall|i: int|
                0 <= i < targets.drop_first().len() ==> targets.drop_first()[i] == targets[i + 1]);
        }
        lemma_wf_plan(targets.drop_first(), step.st, cfg, glob);
        lemma_wf_compose(step.acts, rest.acts, st, step.st, rest.st, root);
    }
}

/// The destination tree modeled by the links it holds: each link path
/// maps to the original it points at. Erasing the root removes every link
/// under it; ensuring a directory changes no link; creating a link sets
/// its destination — the overwrite reading, in which whatever occupied
/// the destination is replaced.
pub open spec fn apply_action(m: Map<PathV, PathV>, a: ActionV) -> Map<PathV, PathV> {
    match a {
        ActionV::EraseRoot { root } => m.remove_keys(Set::new(|p: PathV| spec_under(p, root))),
        ActionV::EnsureDir { .. } => m,
        ActionV::CreateLink { original, link } => m.insert(link, original),
    }
}

/// The destination tree after the actions run in order.
pub open spec fn apply_actions(m: Map<PathV, PathV>, acts: Seq<ActionV>) -> Map<PathV, PathV>
    decreases acts.len(),
{
    if acts.len() == 0 {
        m
    } else {
        apply_actions(apply_action(m, acts.first()), acts.drop_first())
    }
}

/// The links a stretch of actions writes, later writes winning.
spec fn link_writes(acts: Seq<ActionV>) -> Map<PathV, PathV>
    decreases acts.len(),
{
    if acts.len() == 0 {
        Map::empty()
    } else {
        let w = link_writes(acts.drop_first());
        match acts.first() {
            ActionV::CreateLink { original, link } => if w.dom().contains(link) {
                w
            } else {
                w.insert(link, original)
            },
            _ => w,
        }
    }
}

proof fn lemma_apply_no_erase(m: Map<PathV, PathV>, acts: Seq<ActionV>)
    requires
        no_erase(acts),
    ensures
        apply_actions(m, acts) == m.union_prefer_right(link_writes(acts)),
    decreases acts.len(),
{
    if acts.len() == 0 {
        assert(m.union_prefer_right(Map::empty()) =~~= m);
    } else {
        assert(no_erase(acts.drop_first())) by {
            assert(forall|k: int|
                0 <= k < acts.drop_first().len() ==> acts.drop_first()[k] == acts[k + 1]);
        }
        let w = link_writes(acts.drop_first());
        match acts.first() {
            ActionV::EraseRoot { .. } => {
                assert(false);
            }
            ActionV::EnsureDir { .. } => {
                lemma_apply_no_erase(m, acts.drop_first());
            }
            ActionV::CreateLink { original, link } => {
                lemma_apply_no_erase(m.insert(link, original), acts.drop_first());
                assert(m.insert(link, original).union_prefer_right(w) =~~= m.union_prefer_right(
                    link_writes(acts),
                ));
            }
        }
    }
}

proof fn lemma_writes_dom_under(acts: Seq<ActionV>, root: PathV)
    requires
        links_under(acts, root),
    ensures
        forall|p: PathV| link_writes(acts).dom().contains(p) ==> spec_under(p, root),
    decreases acts.len(),
{
    if acts.len() > 0 {
        assert(links_under(acts.drop_first(), root)) by {
            assert(forall|k: int|
                0 <= k < acts.drop_first().len() ==> acts.drop_first()[k] == acts[k + 1]);
        }
        lemma_writes_dom_under(acts.drop_first(), root);
        assert(acts[0] == acts.first());
    }
}

/// Idempotence: running the planned actions twice over any starting
/// destination tree leaves exactly the tree one run leaves — with
/// `overwrite` read into link creation, a rebuild from unchanged sources
/// reproduces the same destination state.
pub proof fn lemma_rebuild_idempotent(
    m: Map<PathV, PathV>,
    targets: Seq<Target>,
    cfg: Config,
    glob: Option<ScopedGlobSet>,
)
    requires
        spec_run_pre(cfg, targets),
    ensures
        ({
            let acts = spec_plan(targets, spec_initial_state(cfg), cfg, glob).acts;
            apply_actions(apply_actions(m, acts), acts) == apply_actions(m, acts)
        }),
{
    let st0 = spec_initial_state(cfg);
    let res = spec_plan(targets, st0, cfg, glob);
    let acts = res.acts;
    let root = cfg.link_root@;
    lemma_wf_plan(targets, st0, cfg, glob);
    if acts.len() == 0 {
    } else if !st0.purge_pending {
        lemma_apply_no_erase(m, acts);
        let once = m.union_prefer_right(link_writes(acts));
        lemma_apply_no_erase(once, acts);
        assert(once.union_prefer_right(link_writes(acts)) =~~= once);
    } else {
        assert(acts[0] == (ActionV::EraseRoot { root }));
        let rest = acts.drop_first();
        assert(rest =~= acts.skip(1));
        assert(no_erase(rest));
        assert(links_under(rest, root)) by {
            assert(forall|k: int| 0 <= k < rest.len() ==> rest[k] == acts[k + 1]);
        }
        let under = Set::new(|p: PathV| spec_under(p, root));
        let w = link_writes(rest);
        lemma_writes_dom_under(rest, root);
        let e1 = m.remove_keys(under);
        assert(apply_actions(m, acts) == apply_actions(e1, rest));
        lemma_apply_no_erase(e1, rest);
        let once = e1.union_prefer_right(w);
        assert(apply_actions(once, acts) == apply_actions(
            once.remove_keys(under),
            rest,
        ));
        assert(once.remove_keys(under) =~~= e1) by {
            assert(forall|p: PathV| w.dom().contains(p) ==> #[trigger] under.contains(p));
            assert(forall|p: PathV| e1.dom().contains(p) ==> !(#[trigger] under.contains(p)));
        }
        lemma_apply_no_erase(once.remove_keys(under), rest);
        assert(once.remove_keys(under).union_prefer_right(w) =~~= once);
    }
}

} // verus!
