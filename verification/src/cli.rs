//! Command-line entry points, reduced to their decisions: each command's
//! state changes run here against explicit repositories and runtime, and
//! what needs the operating system (saving state, remounting, replacing the
//! process image) is returned as an action for the caller to perform.

use vstd::prelude::*;

verus! {

use crate::db::reachable;
use crate::encoding::Digest;
use crate::runtime::{Runtime, kept_edits};
use crate::storage::Repository;
use crate::sync::{sync_object_tree, keys_grow};
use crate::tracking::EnvSpec;
use crate::graph::str_eq;
use crate::Error;

/// What the caller must do after a command's state changes.
pub enum CliAction {
    /// Nothing further.
    Nothing,
    /// Persist the runtime state, then re-apply the live mount.
    SaveAndRemount,
    /// Replace the process image with the given argument vector.
    Exec(Vec<String>),
}

/// A path with the mount prefix removed, when it carries one.
pub open spec fn strip_prefix_spec(s: Seq<char>) -> Seq<char> {
    if s.len() >= 5 && s.take(5) == seq!['/', 's', 'p', 'f', 's'] {
        s.skip(5)
    } else {
        s
    }
}

/// Strips the mount prefix from each path, leaving other paths unchanged.
#[verifier::loop_isolation(false)]
pub fn strip_spfs_prefix(paths: &Vec<String>) -> (r: Vec<String>)
    ensures
        r@.len() == paths@.len(),
        forall|i: int| 0 <= i < r@.len() ==> (#[trigger] r@[i])@ == strip_prefix_spec(
            paths@[i]@,
        ),
{
    let n = paths.len();
    let mut out: Vec<String> = Vec::new();
    let mut i: usize = 0;
    while i < n
        invariant
            i <= n,
            out@.len() == i,
            forall|j: int| 0 <= j < i ==> (#[trigger] out@[j])@ == strip_prefix_spec(paths@[j]@),
        decreases n - i,
    {
        let p = &paths[i];
        let pl = p.as_str().unicode_len();
        let stripped: bool = if pl >= 5 {
            let s = p.as_str();
            s.get_char(0) == '/' && s.get_char(1) == 's' && s.get_char(2) == 'p' && s.get_char(3)
                == 'f' && s.get_char(4) == 's'
        } else {
            false
        };
        if stripped {
            proof {
                assert(p@.take(5) =~= seq!['/', 's', 'p', 'f', 's']);
            }
            out.push(p.as_str().substring_char(5, pl).to_owned());
        } else {
            proof {
                if p@.len() >= 5 && p@.take(5) == seq!['/', 's', 'p', 'f', 's'] {
                    assert(p@[0] == p@.take(5)[0]);
                    assert(p@[1] == p@.take(5)[1]);
                    assert(p@[2] == p@.take(5)[2]);
                    assert(p@[3] == p@.take(5)[3]);
                    assert(p@[4] == p@.take(5)[4]);
                }
            }
            out.push(p.clone());
        }
        i = i + 1;
    }
    out
}

/// The argument vector for an external subcommand: the first argument is
/// prefixed to select the side binary, the rest pass through.
#[verifier::loop_isolation(false)]
pub fn external_command_argv(args: &Vec<String>) -> (r: crate::Result<Vec<String>>)
    ensures
        match r {
            Ok(argv) => {
                &&& args@.len() > 0
                &&& argv@.len() == args@.len()
                &&& argv@[0]@ == "spfs-"@ + args@[0]@
                &&& forall|i: int| 1 <= i < argv@.len() ==> (#[trigger] argv@[i])@ == args@[i]@
            },
            Err(_) => args@.len() == 0,
        },
{
    if args.len() == 0 {
        return Err(Error::String("subcommand cannot be empty".to_owned()));
    }
    let mut argv: Vec<String> = Vec::new();
    let head = "spfs-".to_owned().concat(args[0].as_str());
    argv.push(head);
    let n = args.len();
    let mut i: usize = 1;
    while i < n
        invariant
            1 <= i <= n,
            argv@.len() == i,
            argv@[0]@ == "spfs-"@ + args@[0]@,
            forall|j: int| 1 <= j < i ==> (#[trigger] argv@[j])@ == args@[j]@,
        decreases n - i,
    {
        argv.push(args[i].clone());
        i = i + 1;
    }
    Ok(argv)
}

/// The argument vector a runtime runs after initialization: the given
/// command, or the interactive shell command when none (or an empty first
/// word) was given.
pub fn runtime_command_argv(cmd: Vec<String>, shell: Vec<String>) -> (r: Vec<String>)
    ensures
        r@ == if cmd@.len() == 0 || cmd@[0]@ == Seq::<char>::empty() {
            shell@
        } else {
            cmd@
        },
{
    if cmd.len() == 0 {
        return shell;
    }
    if cmd[0].as_str().unicode_len() == 0 {
        proof {
            assert(cmd@[0]@ =~= Seq::<char>::empty());
        }
        return shell;
    }
    cmd
}

/// One stage of package testing.
#[derive(Clone, Copy, Debug, PartialEq, Eq, Structural)]
pub enum TestStage {
    Sources,
    Build,
    Install,
}

/// The stage a name denotes, if any.
pub open spec fn stage_of(s: Seq<char>) -> Option<TestStage> {
    if s == "sources"@ {
        Some(TestStage::Sources)
    } else if s == "build"@ {
        Some(TestStage::Build)
    } else if s == "install"@ {
        Some(TestStage::Install)
    } else {
        None
    }
}

/// Parses a test stage name.
pub fn parse_stage(s: &str) -> (r: crate::Result<TestStage>)
    ensures
        match r {
            Ok(st) => stage_of(s@) == Some(st),
            Err(_) => stage_of(s@) is None,
        },
{
    if str_eq(s, "sources") {
        Ok(TestStage::Sources)
    } else if str_eq(s, "build") {
        Ok(TestStage::Build)
    } else if str_eq(s, "install") {
        Ok(TestStage::Install)
    } else {
        Err(Error::String("unknown test stage".to_owned()))
    }
}

/// Rebuild the environment from a reference, or reset chosen paths.
pub struct CmdReset {
    /// Remount the rebuilt runtime in edit mode.
    pub edit: bool,
    /// The tag or digest to rebuild the runtime with; empty or `-` asks
    /// for an empty environment.  When absent, only `paths` are reset.
    pub reference: Option<String>,
    /// Glob patterns of files to reset when no reference is given; none
    /// means everything is reset.
    pub paths: Vec<String>,
}

/// The stripped views of a path list.
pub open spec fn strip_views(paths: Seq<String>) -> Seq<Seq<char>> {
    paths.map_values(|p: String| strip_prefix_spec(p@))
}

/// Whether a reference string asks for an empty environment.
pub open spec fn is_empty_env_ref(refv: Seq<char>) -> bool {
    refv.len() == 0 || refv == "-"@
}

/// The stack of digests a reference denotes against the origin: its parsed
/// items, each resolved, in order.
pub open spec fn env_roots(origin: Repository, refv: Seq<char>) -> Option<Seq<Digest>> {
    match crate::tracking::parse_env_items(refv) {
        Some(items) => EnvSpec::resolve_env_items(origin.tags.contents(), items),
        None => None,
    }
}

/// The whole outcome of a reset command: what the runtime and the local
/// repository look like afterwards, for every input shape, and exactly
/// when it fails.
pub open spec fn reset_outcome(
    cmd: CmdReset,
    rt0: Runtime,
    rt1: Runtime,
    origin: Repository,
    l0: Repository,
    l1: Repository,
    r: crate::Result<i32>,
) -> bool {
    match r {
        Ok(code) => {
            &&& code == 0
            &&& rt1.pending_remount
            &&& rt1.name == rt0.name
            &&& match cmd.reference {
                Option::None => {
                    &&& rt1.edits@ == (if cmd.paths@.len() == 0 {
                        Seq::<crate::runtime::Edit>::empty()
                    } else {
                        kept_edits(rt0.edits@, strip_views(cmd.paths@))
                    })
                    &&& rt1.stack == rt0.stack
                    &&& rt1.editable == (rt0.editable || cmd.edit)
                    &&& l1 == l0
                },
                Option::Some(refstr) => {
                    &&& rt1.edits@ == Seq::<crate::runtime::Edit>::empty()
                    &&& if is_empty_env_ref(refstr@) {
                        &&& rt1.stack@ == Seq::<Digest>::empty()
                        &&& rt1.editable
                        &&& l1 == l0
                    } else {
                        match env_roots(origin, refstr@) {
                            Option::Some(roots) => {
                                &&& rt1.stack@ == roots
                                &&& rt1.editable == (rt0.editable || cmd.edit)
                                &&& forall|j: int, d: Digest|
                                    0 <= j < roots.len() && reachable(
                                        origin.db.contents(),
                                        #[trigger] roots[j],
                                        d,
                                    ) ==> #[trigger] l1.db.contents().contains_key(d)
                                &&& keys_grow(l0.db.contents(), l1.db.contents())
                                &&& keys_grow(l0.payloads.contents(), l1.payloads.contents())
                                &&& l1.tags == l0.tags
                                &&& ((forall|j: int, d: Digest|
                                    0 <= j < roots.len() && reachable(
                                        origin.db.contents(),
                                        #[trigger] roots[j],
                                        d,
                                    ) ==> #[trigger] l0.db.contents().contains_key(d)) ==> l1
                                    == l0)
                            },
                            Option::None => false,
                        }
                    }
                },
            }
        },
        Err(_) => {
            &&& cmd.reference is Some
            &&& !is_empty_env_ref(cmd.reference->0@)
            &&& match env_roots(origin, cmd.reference->0@) {
                Option::Some(roots) => exists|j: int, d: Digest|
                    #![trigger reachable(origin.db.contents(), roots[j], d)]
                    0 <= j < roots.len() && reachable(origin.db.contents(), roots[j], d)
                        && !origin.db.contents().contains_key(d),
                Option::None => true,
            }
            &&& keys_grow(l0.db.contents(), l1.db.contents())
            &&& l1.tags == l0.tags
            &&& rt1.edits@ == Seq::<crate::runtime::Edit>::empty()
            &&& rt1.pending_remount
            &&& rt1.name == rt0.name
        },
    }
}

impl CmdReset {
    /// Performs the reset against explicit repositories and runtime.  With
    /// a reference, the runtime is rebuilt from it: the reference's items
    /// resolve against `origin` to root digests, everything reachable from
    /// them is synced into `local`, and the stack becomes exactly those
    /// roots (an empty or `-` reference yields an empty stack).  Without
    /// one, only edits matching the given globs are discarded — all of
    /// them when no glob is given — and nothing is written anywhere.  A
    /// repeated identical run leaves the local store untouched.  The
    /// caller then saves state and remounts.
    #[verifier::loop_isolation(false)]
    #[verifier::rlimit(100)]
    pub fn run(
        &mut self,
        runtime: &mut Runtime,
        origin: &Repository,
        local: &mut Repository,
    ) -> (r: crate::Result<i32>)
        requires
            origin.wf(),
            old(local).wf(),
        ensures
            final(local).wf(),
            reset_outcome(
                *old(self),
                *old(runtime),
                *final(runtime),
                *origin,
                *old(local),
                *final(local),
                r,
            ),
    {
        match &self.reference {
            Some(reference) => {
                runtime.reset_all();
                runtime.reset_stack();
                let is_empty_env = reference.as_str().unicode_len() == 0 || str_eq(
                    reference.as_str(),
                    "-",
                );
                if is_empty_env {
                    runtime.set_editable(true);
                } else {
                    let ghost refv = reference@;
                    let env_spec = match EnvSpec::parse(reference.as_str()) {
                        Ok(spec) => spec,
                        Err(e) => {
                            return Err(e);
                        },
                    };
                    let roots = match env_spec.resolve(origin) {
                        Ok(roots) => roots,
                        Err(e) => {
                            return Err(e);
                        },
                    };
                    proof {
                        assert(env_roots(*origin, refv) == Some(roots@));
                    }
                    let n = roots.len();
                    let mut i: usize = 0;
                    while i < n
                        invariant
                            i <= n,
                            n == roots@.len(),
                            origin.wf(),
                            local.wf(),
                            runtime.pending_remount,
                            runtime.name == old(runtime).name,
                            runtime.editable == old(runtime).editable,
                            runtime.edits@ == Seq::<crate::runtime::Edit>::empty(),
                            runtime.stack@ == roots@.take(i as int),
                            keys_grow(old(local).db.contents(), local.db.contents()),
                            keys_grow(
                                old(local).payloads.contents(),
                                local.payloads.contents(),
                            ),
                            local.tags == old(local).tags,
                            forall|j: int, d: Digest|
                                0 <= j < i && reachable(
                                    origin.db.contents(),
                                    #[trigger] roots@[j],
                                    d,
                                ) ==> #[trigger] local.db.contents().contains_key(d),
                            (forall|j: int, d: Digest|
                                0 <= j < n && reachable(
                                    origin.db.contents(),
                                    #[trigger] roots@[j],
                                    d,
                                ) ==> #[trigger] old(local).db.contents().contains_key(d))
                                ==> *local == *old(local),
                        decreases n - i,
                    {
                        let ghost lpre = *local;
                        match sync_object_tree(origin, local, &roots[i]) {
                            Ok(rep) => {
                                proof {
                                    if (forall|j: int, d: Digest|
                                        0 <= j < n && reachable(
                                            origin.db.contents(),
                                            #[trigger] roots@[j],
                                            d,
                                        ) ==> #[trigger] old(local).db.contents().contains_key(
                                            d,
                                        )) {
                                        assert(lpre == *old(local));
                                        assert(rep.transferred == 0) by {
                                            if rep.transferred != 0 {
                                            }
                                        }
                                    }
                                }
                            },
                            Err(e) => {
                                return Err(e);
                            },
                        }
                        runtime.push_digest(&roots[i]);
                        proof {
                            assert(runtime.stack@ =~= roots@.take(i + 1));
                            assert forall|j: int, d: Digest|
                                0 <= j < i + 1 && reachable(
                                    origin.db.contents(),
                                    #[trigger] roots@[j],
                                    d,
                                ) implies #[trigger] local.db.contents().contains_key(d) by {
                                if j < i {
                                    assert(lpre.db.contents().contains_key(d));
                                }
                            }
                        }
                        i = i + 1;
                    }
                    proof {
                        assert(roots@.take(n as int) =~= roots@);
                    }
                    if self.edit {
                        runtime.set_editable(true);
                    }
                    return Ok(0);
                }
            },
            None => {
                let stripped = strip_spfs_prefix(&self.paths);
                proof {
                    assert(stripped@.map_values(|p: String| p@) =~= strip_views(self.paths@));
                }
                runtime.reset(&stripped);
                runtime.set_editable(runtime.editable);
            },
        }
        if self.edit {
            runtime.set_editable(true);
        }
        Ok(0)
    }
}

/// The top-level command set.
pub enum Command {
    /// Print the version.
    Version,
    /// Rebuild or reset the current environment.
    Reset(CmdReset),
    /// Hand off to an external subcommand.
    External(Vec<String>),
}

/// The parsed command line.
pub struct Opt {
    pub verbose: usize,
    pub help: bool,
    pub cmd: Command,
}

impl Opt {
    /// Dispatches the selected command against explicit state: pure
    /// dispatch, nothing else runs.  `Version` and `External` always
    /// succeed and touch no state; `Reset` fails exactly when the reset
    /// command does, and its full outcome passes through.
    pub fn run(
        &mut self,
        runtime: &mut Runtime,
        origin: &Repository,
        local: &mut Repository,
    ) -> (r: crate::Result<(i32, CliAction)>)
        requires
            origin.wf(),
            old(local).wf(),
        ensures
            final(local).wf(),
            match old(self).cmd {
                Command::Version => {
                    &&& r matches Ok((code, action)) && code == 0 && action is Nothing
                    &&& *final(local) == *old(local)
                    &&& *final(runtime) == *old(runtime)
                },
                Command::Reset(cmd) => match r {
                    Ok((code, action)) => action is SaveAndRemount && reset_outcome(
                        cmd,
                        *old(runtime),
                        *final(runtime),
                        *origin,
                        *old(local),
                        *final(local),
                        crate::Result::<i32>::Ok(code),
                    ),
                    Err(e) => reset_outcome(
                        cmd,
                        *old(runtime),
                        *final(runtime),
                        *origin,
                        *old(local),
                        *final(local),
                        crate::Result::<i32>::Err(e),
                    ),
                },
                Command::External(args) => {
                    &&& *final(local) == *old(local)
                    &&& *final(runtime) == *old(runtime)
                    &&& if args@.len() == 0 {
                        r matches Ok((code, action)) && code == 1 && action is Nothing
                    } else {
                        r matches Ok((code, action)) && code == 0 && (action matches
                        CliAction::Exec(argv) && argv@.len() == args@.len() && argv@[0]@
                            == "spfs-"@ + args@[0]@ && (forall|i: int|
                            1 <= i < argv@.len() ==> (#[trigger] argv@[i])@ == args@[i]@))
                    }
                },
            },
    {
        match &mut self.cmd {
            Command::Version => Ok((0, CliAction::Nothing)),
            Command::Reset(cmd) => {
                match cmd.run(runtime, origin, local) {
                    Ok(code) => Ok((code, CliAction::SaveAndRemount)),
                    Err(e) => Err(e),
                }
            },
            Command::External(args) => {
                if args.len() == 0 {
                    return Ok((1, CliAction::Nothing));
                }
                match external_command_argv(args) {
                    Ok(argv) => Ok((0, CliAction::Exec(argv))),
                    Err(e) => Err(e),
                }
            },
        }
    }
}

} // verus!
