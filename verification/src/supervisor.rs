//! Per-branch run coordination: at most one active fuzzing run per
//! branch, and a superseding push must see the prior run's completion
//! before its own checkout begins.
//!
//! The supervisor is the decision core. The caller owns the actual
//! broadcast channel and completion signal: on `CancelAndWait` it sends
//! the cancellation, waits for the completion signal, reports it here,
//! and only a `launch` step — which the state machine refuses while the
//! prior run is still alive — lets a checkout begin.
use vstd::prelude::*;

use crate::text::str_eq;

verus! {

/// The lifecycle of one branch's coordination token.
#[derive(Clone, Copy, PartialEq, Eq, Structural, Debug)]
pub enum BranchPhase {
    /// No run is active; a push may launch at once.
    Idle,
    /// A run is active.
    Running,
    /// A run is active, its cancellation was broadcast, and a
    /// superseding push waits for its completion.
    Superseding,
    /// The superseded run completed; the waiting push may launch.
    Cleared,
}

/// What the caller must do with a push it just received.
#[derive(Clone, Copy, PartialEq, Eq, Structural, Debug)]
pub enum PushAction {
    /// No run was active: the push may launch its run now.
    Launch,
    /// A run was active: cancel it and wait for its completion signal
    /// before launching.
    CancelAndWait,
}

/// One supervisor step, at specification level.
pub enum SupOp {
    /// A push event arrived for the branch.
    Push(Seq<char>),
    /// The branch's active run signalled completion.
    Completed(Seq<char>),
    /// A checkout begins for the branch.
    Launch(Seq<char>),
}

/// The phase of a branch in the registry; an unknown branch is idle.
pub open spec fn phase_of(m: Map<Seq<char>, BranchPhase>, b: Seq<char>) -> BranchPhase {
    if m.contains_key(b) {
        m[b]
    } else {
        BranchPhase::Idle
    }
}

/// One step of the protocol: the new registry, or nothing when the
/// step is not allowed in the current state.
pub open spec fn sup_step(
    m: Map<Seq<char>, BranchPhase>,
    op: SupOp,
) -> Option<Map<Seq<char>, BranchPhase>> {
    match op {
        SupOp::Push(b) => match phase_of(m, b) {
            BranchPhase::Idle => Some(m.insert(b, BranchPhase::Running)),
            BranchPhase::Running => Some(m.insert(b, BranchPhase::Superseding)),
            BranchPhase::Superseding => Some(m),
            BranchPhase::Cleared => Some(m),
        },
        SupOp::Completed(b) => match phase_of(m, b) {
            BranchPhase::Running => Some(m.insert(b, BranchPhase::Idle)),
            BranchPhase::Superseding => Some(m.insert(b, BranchPhase::Cleared)),
            _ => None,
        },
        SupOp::Launch(b) => match phase_of(m, b) {
            BranchPhase::Idle => Some(m.insert(b, BranchPhase::Running)),
            BranchPhase::Cleared => Some(m.insert(b, BranchPhase::Running)),
            _ => None,
        },
    }
}

/// Runs a sequence of steps, first step first; nothing once any step
/// is refused.
pub open spec fn run_ops(
    m: Map<Seq<char>, BranchPhase>,
    ops: Seq<SupOp>,
) -> Option<Map<Seq<char>, BranchPhase>>
    decreases ops.len(),
{
    if ops.len() == 0 {
        Some(m)
    } else {
        match sup_step(m, ops[0]) {
            None => None,
            Some(m2) => run_ops(m2, ops.drop_first()),
        }
    }
}

/// A valid trace stays valid on every prefix.
proof fn lemma_run_ops_prefix(m: Map<Seq<char>, BranchPhase>, ops: Seq<SupOp>, j: int)
    requires
        0 <= j <= ops.len(),
        run_ops(m, ops) is Some,
    ensures
        run_ops(m, ops.take(j)) is Some,
    decreases j,
{
    if j > 0 {
        assert(ops.take(j)[0] == ops[0]);
        let m2 = sup_step(m, ops[0])->Some_0;
        assert(ops.take(j).drop_first() =~= ops.drop_first().take(j - 1));
        lemma_run_ops_prefix(m2, ops.drop_first(), j - 1);
    }
}

/// While a branch is superseding and its old run has not completed, no
/// launch for that branch can be part of a valid trace, and the branch
/// stays superseding.
proof fn lemma_supersede_blocks_launch(
    m: Map<Seq<char>, BranchPhase>,
    ops: Seq<SupOp>,
    b: Seq<char>,
)
    requires
        phase_of(m, b) == BranchPhase::Superseding,
        run_ops(m, ops) is Some,
        forall|k: int| 0 <= k < ops.len() ==> ops[k] != SupOp::Completed(b),
    ensures
        phase_of(run_ops(m, ops)->Some_0, b) == BranchPhase::Superseding,
        forall|k: int| 0 <= k < ops.len() ==> ops[k] != SupOp::Launch(b),
    decreases ops.len(),
{
    if ops.len() > 0 {
        let op = ops[0];
        assert(op != SupOp::Completed(b));
        let m2 = sup_step(m, op)->Some_0;
        assert(op != SupOp::Launch(b));
        assert(phase_of(m2, b) == BranchPhase::Superseding);
        assert forall|k: int| 0 <= k < ops.drop_first().len() implies ops.drop_first()[k]
            != SupOp::Completed(b) by {
            assert(ops.drop_first()[k] == ops[k + 1]);
        }
        lemma_supersede_blocks_launch(m2, ops.drop_first(), b);
        assert forall|k: int| 0 <= k < ops.len() implies ops[k] != SupOp::Launch(b) by {
            if k > 0 {
                assert(ops.drop_first()[k - 1] == ops[k]);
            }
        }
    }
}

/// The central ordering guarantee: once a superseding push has sent its
/// cancellation (the branch is superseding), any later checkout for the
/// branch in a valid trace comes after the superseded run's completion
/// signal. Two runs of one branch therefore never overlap.
pub proof fn lemma_completion_before_relaunch(
    m: Map<Seq<char>, BranchPhase>,
    ops: Seq<SupOp>,
    b: Seq<char>,
    j: int,
)
    requires
        phase_of(m, b) == BranchPhase::Superseding,
        run_ops(m, ops) is Some,
        0 <= j < ops.len(),
        ops[j] == SupOp::Launch(b),
    ensures
        exists|k: int| 0 <= k < j && ops[k] == SupOp::Completed(b),
{
    if forall|k: int| 0 <= k < j ==> ops[k] != SupOp::Completed(b) {
        lemma_run_ops_prefix(m, ops, j + 1);
        let pre = ops.take(j + 1);
        assert forall|k: int| 0 <= k < pre.len() - 1 implies pre[k] != SupOp::Completed(b) by {
            assert(pre[k] == ops[k]);
        }
        assert(pre[j] == ops[j]);
        if pre[j] == SupOp::Completed(b) {
            assert(ops[j] == SupOp::Completed(b));
            assert(false);
        }
        assert forall|k: int| 0 <= k < pre.len() implies pre[k] != SupOp::Completed(b) by {
            if k < pre.len() - 1 {
            } else {
                assert(pre[k] == pre[j]);
            }
        }
        lemma_supersede_blocks_launch(m, pre, b);
        assert(pre[j] != SupOp::Launch(b));
        assert(false);
    }
}

/// The per-process registry of branch phases, one entry per branch that
/// ever saw a push.
pub struct RunSupervisor {
    branches: Vec<(String, BranchPhase)>,
}

impl RunSupervisor {
    /// The entries with names by their character views.
    pub closed spec fn entries(self) -> Seq<(Seq<char>, BranchPhase)> {
        self.branches@.map_values(|e: (String, BranchPhase)| (e.0@, e.1))
    }

    /// Branch names are unique.
    pub open spec fn wf(self) -> bool {
        forall|i: int, j: int|
            0 <= i < self.entries().len() && 0 <= j < self.entries().len() && i != j ==> (
            #[trigger] self.entries()[i]).0 != (#[trigger] self.entries()[j]).0
    }

    /// The registry as a map.
    pub closed spec fn view(self) -> Map<Seq<char>, BranchPhase> {
        Map::new(
            |b: Seq<char>| exists|i: int| 0 <= i < self.entries().len() && self.entries()[i].0 == b,
            |b: Seq<char>|
                {
                    let i = choose|i: int|
                        0 <= i < self.entries().len() && (#[trigger] self.entries()[i]).0 == b;
                    self.entries()[i].1
                },
        )
    }

    pub fn new() -> (r: RunSupervisor)
        ensures
            r.wf(),
            r.view() == Map::<Seq<char>, BranchPhase>::empty(),
    {
        let r = RunSupervisor { branches: Vec::new() };
        proof {
            assert(r.entries().len() == 0);
            assert(r.view() =~= Map::<Seq<char>, BranchPhase>::empty());
        }
        r
    }

    /// Index of the entry for `branch`, if the branch is known.
    fn find(&self, branch: &str) -> (r: Option<usize>)
        ensures
            match r {
                Some(i) => i < self.entries().len() && self.entries()[i as int].0 == branch@,
                None => forall|k: int|
                    0 <= k < self.entries().len() ==> (#[trigger] self.entries()[k]).0 != branch@,
            },
    {
        let n = self.branches.len();
        let mut i: usize = 0;
        while i < n
            invariant
                0 <= i <= n,
                n == self.entries().len(),
                self.branches@.len() == n,
                forall|k: int| 0 <= k < i ==> (#[trigger] self.entries()[k]).0 != branch@,
            decreases n - i,
        {
            if str_eq(self.branches[i].0.as_str(), branch) {
                return Some(i);
            }
            i = i + 1;
        }
        None
    }

    /// The phase `branch` is in.
    pub fn phase(&self, branch: &str) -> (r: BranchPhase)
        requires
            self.wf(),
        ensures
            r == phase_of(self@, branch@),
    {
        proof {
            self.lemma_view_index(branch@);
        }
        match self.find(branch) {
            Some(i) => self.branches[i].1,
            None => BranchPhase::Idle,
        }
    }

    /// Replaces or adds the entry for `branch`.
    fn set_phase(&mut self, branch: &str, phase: BranchPhase)
        requires
            old(self).wf(),
        ensures
            final(self).wf(),
            final(self)@ == old(self)@.insert(branch@, phase),
    {
        proof {
            self.lemma_view_index(branch@);
        }
        match self.find(branch) {
            Some(i) => {
                let (name, _) = self.branches.remove(i);
                self.branches.insert(i, (name, phase));
                proof {
                    assert(self.entries() =~= old(self).entries().update(
                        i as int,
                        (branch@, phase),
                    ));
                    self.lemma_view_after_update(*old(self), i as int, branch@, phase);
                }
            },
            None => {
                let owned = branch_to_string(branch);
                self.branches.push((owned, phase));
                proof {
                    assert(self.entries() =~= old(self).entries().push((branch@, phase)));
                    self.lemma_view_after_push(*old(self), branch@, phase);
                }
            },
        }
    }

    /// A push arrived for `branch`: marks the branch and says whether
    /// the caller may launch now or must cancel the active run and wait
    /// for its completion first.
    pub fn on_push(&mut self, branch: &str) -> (r: PushAction)
        requires
            old(self).wf(),
        ensures
            final(self).wf(),
            Some(final(self)@) == sup_step(old(self)@, SupOp::Push(branch@)),
            r == (match phase_of(old(self)@, branch@) {
                BranchPhase::Idle => PushAction::Launch,
                _ => PushAction::CancelAndWait,
            }),
    {
        let ph = self.phase(branch);
        match ph {
            BranchPhase::Idle => {
                self.set_phase(branch, BranchPhase::Running);
                PushAction::Launch
            },
            BranchPhase::Running => {
                self.set_phase(branch, BranchPhase::Superseding);
                PushAction::CancelAndWait
            },
            BranchPhase::Superseding => PushAction::CancelAndWait,
            BranchPhase::Cleared => PushAction::CancelAndWait,
        }
    }

    /// The active run of `branch` signalled completion.
    pub fn on_completed(&mut self, branch: &str)
        requires
            old(self).wf(),
            phase_of(old(self)@, branch@) == BranchPhase::Running || phase_of(
                old(self)@,
                branch@,
            ) == BranchPhase::Superseding,
        ensures
            final(self).wf(),
            Some(final(self)@) == sup_step(old(self)@, SupOp::Completed(branch@)),
    {
        let ph = self.phase(branch);
        match ph {
            BranchPhase::Running => self.set_phase(branch, BranchPhase::Idle),
            _ => self.set_phase(branch, BranchPhase::Cleared),
        }
    }

    /// A checkout begins for `branch`; allowed only while no run of the
    /// branch is alive.
    pub fn launch(&mut self, branch: &str)
        requires
            old(self).wf(),
            phase_of(old(self)@, branch@) == BranchPhase::Idle || phase_of(old(self)@, branch@)
                == BranchPhase::Cleared,
        ensures
            final(self).wf(),
            Some(final(self)@) == sup_step(old(self)@, SupOp::Launch(branch@)),
    {
        self.set_phase(branch, BranchPhase::Running);
    }

    /// A key is in the registry map exactly when some entry carries it,
    /// and then the map holds that entry's phase.
    proof fn lemma_view_index(&self, b: Seq<char>)
        requires
            self.wf(),
        ensures
            self@.contains_key(b) <==> exists|i: int|
                0 <= i < self.entries().len() && (#[trigger] self.entries()[i]).0 == b,
            forall|i: int|
                0 <= i < self.entries().len() && (#[trigger] self.entries()[i]).0 == b
                    ==> self@.contains_key(b) && self@[b] == self.entries()[i].1,
    {
    }

    /// Updating an entry in place updates the map alone.
    proof fn lemma_view_after_update(&self, pre: RunSupervisor, i: int, b: Seq<char>, ph: BranchPhase)
        requires
            pre.wf(),
            0 <= i < pre.entries().len(),
            pre.entries()[i].0 == b,
            self.entries() == pre.entries().update(i, (b, ph)),
        ensures
            self.wf(),
            self@ == pre@.insert(b, ph),
    {
        assert forall|x: int, y: int|
            0 <= x < self.entries().len() && 0 <= y < self.entries().len() && x != y implies (
        #[trigger] self.entries()[x]).0 != (#[trigger] self.entries()[y]).0 by {
            assert(pre.entries()[x].0 == self.entries()[x].0);
            assert(pre.entries()[y].0 == self.entries()[y].0);
        }
        assert forall|c: Seq<char>| true implies #[trigger] self@.contains_key(c) == pre@.insert(
            b,
            ph,
        ).contains_key(c) && (self@.contains_key(c) ==> self@[c] == pre@.insert(b, ph)[c]) by {
            self.lemma_view_index(c);
            pre.lemma_view_index(c);
            if c == b {
                assert(self.entries()[i].0 == b);
                assert(self.entries()[i].1 == ph);
            } else {
                if pre@.contains_key(c) {
                    let k = choose|k: int|
                        0 <= k < pre.entries().len() && (#[trigger] pre.entries()[k]).0 == c;
                    assert(self.entries()[k].0 == c);
                    assert(self.entries()[k].1 == pre.entries()[k].1);
                }
                if self@.contains_key(c) {
                    let k = choose|k: int|
                        0 <= k < self.entries().len() && (#[trigger] self.entries()[k]).0 == c;
                    assert(pre.entries()[k].0 == c);
                }
            }
        }
        assert(self@ =~= pre@.insert(b, ph));
    }

    /// Adding an entry for a fresh branch inserts into the map.
    proof fn lemma_view_after_push(&self, pre: RunSupervisor, b: Seq<char>, ph: BranchPhase)
        requires
            pre.wf(),
            forall|k: int| 0 <= k < pre.entries().len() ==> (#[trigger] pre.entries()[k]).0 != b,
            self.entries() == pre.entries().push((b, ph)),
        ensures
            self.wf(),
            self@ == pre@.insert(b, ph),
    {
        let n = pre.entries().len() as int;
        assert forall|x: int, y: int|
            0 <= x < self.entries().len() && 0 <= y < self.entries().len() && x != y implies (
        #[trigger] self.entries()[x]).0 != (#[trigger] self.entries()[y]).0 by {
            if x < n && y < n {
                assert(pre.entries()[x].0 == self.entries()[x].0);
                assert(pre.entries()[y].0 == self.entries()[y].0);
            } else if x < n {
                assert(pre.entries()[x].0 == self.entries()[x].0);
                assert(self.entries()[y] == (b, ph));
            } else {
                assert(self.entries()[x] == (b, ph));
                assert(pre.entries()[y].0 == self.entries()[y].0);
            }
        }
        assert forall|c: Seq<char>| true implies #[trigger] self@.contains_key(c) == pre@.insert(
            b,
            ph,
        ).contains_key(c) && (self@.contains_key(c) ==> self@[c] == pre@.insert(b, ph)[c]) by {
            self.lemma_view_index(c);
            pre.lemma_view_index(c);
            if c == b {
                assert(self.entries()[n].0 == b);
                assert(self.entries()[n].1 == ph);
            } else {
                if pre@.contains_key(c) {
                    let k = choose|k: int|
                        0 <= k < pre.entries().len() && (#[trigger] pre.entries()[k]).0 == c;
                    assert(self.entries()[k].0 == c);
                }
                if self@.contains_key(c) {
                    let k = choose|k: int|
                        0 <= k < self.entries().len() && (#[trigger] self.entries()[k]).0 == c;
                    assert(k < n);
                    assert(pre.entries()[k].0 == c);
                }
            }
        }
        assert(self@ =~= pre@.insert(b, ph));
    }
}

/// Takes an owned copy of a borrowed branch name.
fn branch_to_string(branch: &str) -> (r: String)
    ensures
        r@ == branch@,
{
    branch.to_owned()
}

/// The branch a push event's reference names, when it is a branch
/// reference at all.
pub fn branch_of_ref(refname: &str) -> (r: Option<String>)
    ensures
        match r {
            Some(b) => refname@.len() >= "refs/heads/"@.len() && refname@.take(
                "refs/heads/"@.len() as int,
            ) == "refs/heads/"@ && b@ == refname@.skip("refs/heads/"@.len() as int),
            None => !(refname@.len() >= "refs/heads/"@.len() && refname@.take(
                "refs/heads/"@.len() as int,
            ) == "refs/heads/"@),
        },
{
    proof {
        reveal_strlit("refs/heads/");
    }
    if crate::text::str_starts_with(refname, "refs/heads/") {
        let plen = "refs/heads/".unicode_len();
        let len = refname.unicode_len();
        let rest = refname.substring_char(plen, len);
        proof {
            assert(rest@ =~= refname@.skip("refs/heads/"@.len() as int));
        }
        Some(rest.to_owned())
    } else {
        None
    }
}

/// The first line of a commit message.
pub open spec fn first_line(s: Seq<char>) -> Seq<char> {
    s.take(crate::parser::idx_of(s, '\n'))
}

/// A run's human-readable identity: the commit summary, the short
/// commit id, the author and the start timestamp.
pub open spec fn spec_run_id(
    message: Seq<char>,
    id: Seq<char>,
    username: Seq<char>,
    time_text: Seq<char>,
) -> Seq<char> {
    seq!['_'] + first_line(message) + "_ - "@ + id.take(5) + " by "@ + username + " at "@
        + time_text
}

/// Builds a run's identity from its head commit and a start timestamp
/// already rendered as text.
pub fn run_id(message: &str, id: &str, username: &str, time_text: &str) -> (r: String)
    requires
        id@.len() >= 5,
    ensures
        r@ == spec_run_id(message@, id@, username@, time_text@),
{
    let mut out = "_".to_owned();
    proof {
        reveal_strlit("_");
        assert("_"@ =~= seq!['_']);
    }
    let mlen = message.unicode_len();
    let nl = crate::parser::find_char(message, 0, '\n');
    proof {
        crate::parser::lemma_idx_of_is_from(message@, 0, nl as int, '\n');
        assert(message@.skip(0) =~= message@);
        assert(message@.skip(0).take(nl as int) =~= message@.take(nl as int));
    }
    let summary = message.substring_char(0, nl);
    out.append(summary);
    out.append("_ - ");
    let short = id.substring_char(0, 5);
    out.append(short);
    out.append(" by ");
    out.append(username);
    out.append(" at ");
    out.append(time_text);
    proof {
        assert(out@ =~= spec_run_id(message@, id@, username@, time_text@));
    }
    out
}

/// The description a run's feedback messages carry.
pub fn run_description(branch: &str, id: &str) -> (r: String)
    ensures
        r@ == "Branch `"@ + branch@ + "`, "@ + id@,
{
    let mut out = "Branch `".to_owned();
    out.append(branch);
    out.append("`, ");
    out.append(id);
    out
}

} // verus!
