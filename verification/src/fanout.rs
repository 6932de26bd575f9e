//! The broadcast fanout: one message, from one sender, written to every
//! other registered client. A `Fanout` is computed under exclusive access
//! to the registry from one consistent snapshot of it: the payload to
//! write and the snapshot positions of every recipient. The surrounding
//! program then attempts the recipients in order, reporting each write's
//! outcome back through `record`; a failed write is noted and never cuts
//! the remaining recipients out of the fanout.

use vstd::prelude::*;
use vstd::string::StringExecFns;
use crate::registry::Registry;

verus! {

/// The broadcast payload for a line from `sender`: the sender's
/// identifier, a separating colon and space, then the line exactly as it
/// was received — trailing newline included.
pub fn format_message(sender: &String, line: &String) -> (m: String)
    ensures
        m@ == sender@ + ": "@ + line@,
{
    sender.clone().concat(": ").concat(line.as_str())
}

/// One broadcast in progress: the payload, the snapshot positions of its
/// recipients in ascending order, a cursor over how many of them have had
/// their write attempted, and the positions whose write failed.
pub struct Fanout {
    payload: String,
    targets: Vec<usize>,
    attempted: usize,
    failed: Vec<usize>,
}

impl Fanout {
    /// The characters every recipient is sent.
    pub closed spec fn payload(&self) -> Seq<char> {
        self.payload@
    }

    /// The snapshot positions of all recipients, in the order they are
    /// attempted.
    pub closed spec fn targets(&self) -> Seq<usize> {
        self.targets@
    }

    /// The recipients whose write has been attempted so far.
    pub closed spec fn attempted(&self) -> Seq<usize> {
        self.targets@.take(self.attempted as int)
    }

    /// The recipients still to be attempted.
    pub closed spec fn remaining(&self) -> Seq<usize> {
        self.targets@.skip(self.attempted as int)
    }

    /// The recipients whose write came back as failed.
    pub closed spec fn failed(&self) -> Seq<usize> {
        self.failed@
    }

    /// The cursor never passes the end of the plan.
    pub closed spec fn wf(&self) -> bool {
        self.attempted <= self.targets@.len()
    }

    /// `self` is the recipient plan of a broadcast from `sender` over one
    /// snapshot of `reg`: the positions, in ascending snapshot order, of
    /// exactly those entries whose identifier is not the sender's.
    pub open spec fn is_plan_for<W>(self, reg: Registry<W>, sender: Seq<char>) -> bool {
        &&& forall|k: int|
            0 <= k < self.targets().len() ==> (#[trigger] self.targets()[k]) < reg.ids().len()
                && reg.ids()[self.targets()[k] as int] != sender
        &&& forall|j: int|
            0 <= j < reg.ids().len() && reg.ids()[j] != sender ==> self.targets().contains(
                j as usize,
            )
        &&& forall|k1: int, k2: int|
            0 <= k1 < k2 < self.targets().len() ==> self.targets()[k1] < self.targets()[k2]
    }

    /// How one call of `record` with outcome `ok` changes the state.
    pub open spec fn steps_to(self, post: Fanout, ok: bool) -> bool {
        &&& post.payload() == self.payload()
        &&& post.targets() == self.targets()
        &&& post.attempted() == self.attempted().push(self.remaining()[0])
        &&& post.remaining() == self.remaining().skip(1)
        &&& post.failed() == if ok {
            self.failed()
        } else {
            self.failed().push(self.remaining()[0])
        }
        &&& post.wf()
    }

    /// The states a run of `record` calls with the outcomes `oks`, in
    /// order, passes through from `self` to `post`.
    pub open spec fn runs_to(self, post: Fanout, oks: Seq<bool>) -> bool
        decreases oks.len(),
    {
        if oks.len() == 0 {
            post == self
        } else {
            exists|mid: Fanout| self.steps_to(mid, oks[0]) && mid.runs_to(post, oks.skip(1))
        }
    }

    /// Computes a broadcast from `sender` of `line` over the registry as
    /// it stands: the prefixed payload, and as recipients every entry of
    /// this snapshot except the sender's own, none attempted yet.
    pub fn begin<W>(reg: &Registry<W>, sender: &String, line: &String) -> (f: Fanout)
        ensures
            f.wf(),
            f.payload() == sender@ + ": "@ + line@,
            f.attempted() == Seq::<usize>::empty(),
            f.remaining() == f.targets(),
            f.failed() == Seq::<usize>::empty(),
            f.is_plan_for(*reg, sender@),
    {
        let payload = format_message(sender, line);
        let mut targets: Vec<usize> = Vec::new();
        let n = reg.len();
        for i in 0..n
            invariant
                n == reg.ids().len(),
                forall|k: int|
                    0 <= k < targets@.len() ==> (#[trigger] targets@[k]) < i && reg.ids()[
                        targets@[k] as int
                    ] != sender@,
                forall|j: int|
                    0 <= j < i && reg.ids()[j] != sender@ ==> targets@.contains(j as usize),
                forall|k1: int, k2: int|
                    0 <= k1 < k2 < targets@.len() ==> targets@[k1] < targets@[k2],
        {
            if !reg.id_at(i).eq(sender) {
                let ghost pre_t = targets@;
                targets.push(i);
                proof {
                    assert forall|j: int|
                        0 <= j < i + 1 && reg.ids()[j] != sender@ implies targets@.contains(
                        j as usize,
                    ) by {
                        if j == i {
                            assert(targets@[pre_t.len() as int] == i as usize);
                        } else {
                            assert(pre_t.contains(j as usize));
                            let k = choose|k: int| 0 <= k < pre_t.len() && pre_t[k] == j as usize;
                            assert(targets@[k] == j as usize);
                        }
                    }
                }
            }
        }
        let f = Fanout { payload, targets, attempted: 0, failed: Vec::new() };
        proof {
            assert(f.attempted() =~= Seq::<usize>::empty());
            assert(f.remaining() =~= f.targets());
        }
        f
    }

    /// The payload, for handing to each recipient's write.
    pub fn payload_str(&self) -> (r: &String)
        ensures
            r@ == self.payload(),
    {
        &self.payload
    }

    /// The next recipient position to attempt, if any remain.
    pub fn current(&self) -> (r: Option<usize>)
        requires
            self.wf(),
        ensures
            match r {
                Some(i) => self.remaining().len() > 0 && i == self.remaining()[0],
                None => self.remaining().len() == 0,
            },
    {
        if self.attempted < self.targets.len() {
            Some(self.targets[self.attempted])
        } else {
            None
        }
    }

    /// The recipients whose write failed, for reporting.
    pub fn failures(&self) -> (r: &Vec<usize>)
        ensures
            r@ == self.failed(),
    {
        &self.failed
    }

    /// Moves past the current recipient once its write has been
    /// attempted, noting whether it failed. The cursor moves the same way
    /// for a failed write as for a successful one: one recipient's
    /// failure never aborts the rest of the fanout.
    pub fn record(&mut self, ok: bool)
        requires
            old(self).wf(),
            old(self).remaining().len() > 0,
        ensures
            final(self).wf(),
            old(self).steps_to(*final(self), ok),
    {
        let n = self.targets.len();
        proof {
            assert(self.attempted < n);
        }
        if !ok {
            let t = self.targets[self.attempted];
            self.failed.push(t);
        }
        self.attempted = self.attempted + 1;
        proof {
            assert(self.attempted() =~= old(self).attempted().push(old(self).remaining()[0]));
            assert(self.remaining() =~= old(self).remaining().skip(1));
        }
    }
}

/// A broadcast is never delivered back to its sender: no recipient
/// position of the plan carries the sender's identifier.
pub proof fn lemma_sender_never_receives<W>(reg: Registry<W>, f: Fanout, sender: Seq<char>)
    requires
        f.is_plan_for(reg, sender),
    ensures
        forall|k: int|
            0 <= k < f.targets().len() ==> reg.ids()[(#[trigger] f.targets()[k]) as int]
                != sender,
{
}

/// Every other registered client is a recipient: each identifier of the
/// snapshot other than the sender's stands somewhere in the plan.
pub proof fn lemma_all_others_are_recipients<W>(
    reg: Registry<W>,
    f: Fanout,
    sender: Seq<char>,
    c: Seq<char>,
)
    requires
        reg.wf(),
        f.is_plan_for(reg, sender),
        reg@.dom().contains(c),
        c != sender,
    ensures
        exists|k: int|
            0 <= k < f.targets().len() && reg.ids()[(#[trigger] f.targets()[k]) as int] == c,
{
    reg.lemma_view_characterization();
    reg.lemma_len_bounded();
    assert(reg.ids().to_set().contains(c));
    assert(reg.ids().contains(c));
    let j = choose|j: int| 0 <= j < reg.ids().len() && reg.ids()[j] == c;
    assert(f.targets().contains(j as usize));
    let k = choose|k: int| 0 <= k < f.targets().len() && f.targets()[k] == j as usize;
    assert(0 <= k < f.targets().len() && f.targets()[k] == j as usize);
    assert((f.targets()[k]) as int == j);
    assert(reg.ids()[(f.targets()[k]) as int] == c);
}

/// A line broadcast by one client while two others are registered is
/// planned for delivery to both — as the sender's identifier, the
/// separator, then the line verbatim — and never back to the sender.
pub proof fn lemma_message_reaches_both_others<W>(
    reg: Registry<W>,
    f: Fanout,
    a: Seq<char>,
    line: Seq<char>,
    b: Seq<char>,
    c: Seq<char>,
)
    requires
        reg.wf(),
        f.is_plan_for(reg, a),
        f.payload() == a + ": "@ + line,
        reg@.dom().contains(b) && b != a,
        reg@.dom().contains(c) && c != a,
    ensures
        exists|k: int|
            0 <= k < f.targets().len() && reg.ids()[(#[trigger] f.targets()[k]) as int] == b,
        exists|k: int|
            0 <= k < f.targets().len() && reg.ids()[(#[trigger] f.targets()[k]) as int] == c,
        forall|k: int|
            0 <= k < f.targets().len() ==> reg.ids()[(#[trigger] f.targets()[k]) as int] != a,
{
    lemma_all_others_are_recipients(reg, f, a, b);
    lemma_all_others_are_recipients(reg, f, a, c);
    lemma_sender_never_receives(reg, f, a);
}

/// A run over any outcomes attempts every recipient of the plan, in
/// order: however many writes fail, none of the remaining recipients is
/// skipped, and the payload never changes.
pub proof fn lemma_run_attempts_all(pre: Fanout, post: Fanout, oks: Seq<bool>)
    requires
        pre.runs_to(post, oks),
        oks.len() == pre.remaining().len(),
    ensures
        post.attempted() == pre.attempted() + pre.remaining(),
        post.remaining().len() == 0,
        post.payload() == pre.payload(),
        post.targets() == pre.targets(),
    decreases oks.len(),
{
    if oks.len() == 0 {
        assert(post == pre);
        assert(pre.attempted() + pre.remaining() =~= pre.attempted());
    } else {
        let mid = choose|mid: Fanout| pre.steps_to(mid, oks[0]) && mid.runs_to(post, oks.skip(1));
        lemma_run_attempts_all(mid, post, oks.skip(1));
        assert(pre.attempted().push(pre.remaining()[0]) + pre.remaining().skip(1) =~= pre.attempted()
            + pre.remaining());
    }
}

/// One recipient's failure never aborts the fanout: for a fresh plan run
/// to completion, every registered client other than the sender appears
/// among the attempted recipients whatever the outcomes were — in
/// particular when another recipient's write failed.
pub proof fn lemma_failure_does_not_abort_fanout<W>(
    reg: Registry<W>,
    pre: Fanout,
    post: Fanout,
    oks: Seq<bool>,
    sender: Seq<char>,
    c: Seq<char>,
)
    requires
        reg.wf(),
        pre.wf(),
        pre.is_plan_for(reg, sender),
        pre.attempted().len() == 0,
        pre.runs_to(post, oks),
        oks.len() == pre.remaining().len(),
        reg@.dom().contains(c),
        c != sender,
    ensures
        exists|k: int|
            0 <= k < post.attempted().len() && reg.ids()[(#[trigger] post.attempted()[k]) as int]
                == c,
{
    lemma_run_attempts_all(pre, post, oks);
    lemma_all_others_are_recipients(reg, pre, sender, c);
    let k = choose|k: int|
        0 <= k < pre.targets().len() && reg.ids()[(pre.targets()[k]) as int] == c;
    assert(post.attempted()[k] == pre.targets()[k]) by {
        assert(pre.attempted().len() == 0);
        assert(pre.remaining() =~= pre.targets());
    }
    assert(reg.ids()[(post.attempted()[k]) as int] == c);
}

/// Within one broadcast each recipient is written at most once: the
/// plan's positions are strictly ascending, so none repeats, and with the
/// registry's identifiers pairwise distinct no identifier stands at two
/// positions of the plan.
pub proof fn lemma_one_write_per_recipient<W>(reg: Registry<W>, f: Fanout, sender: Seq<char>)
    requires
        reg.wf(),
        f.is_plan_for(reg, sender),
    ensures
        f.targets().no_duplicates(),
        forall|k1: int, k2: int|
            0 <= k1 < k2 < f.targets().len() ==> reg.ids()[(#[trigger] f.targets()[k1]) as int]
                != reg.ids()[(#[trigger] f.targets()[k2]) as int],
{
    assert forall|k1: int, k2: int| 0 <= k1 < k2 < f.targets().len() implies reg.ids()[(
    f.targets()[k1]) as int] != reg.ids()[(f.targets()[k2]) as int] by {
        assert(f.targets()[k1] < f.targets()[k2]);
    }
}

/// No write is attempted to a client that is out of the registry: a plan
/// computed after an identifier's removal holds no position carrying it.
pub proof fn lemma_absent_client_not_attempted<W>(
    reg: Registry<W>,
    f: Fanout,
    sender: Seq<char>,
    gone: Seq<char>,
)
    requires
        reg.wf(),
        f.is_plan_for(reg, sender),
        !reg@.dom().contains(gone),
    ensures
        forall|k: int|
            0 <= k < f.targets().len() ==> reg.ids()[(#[trigger] f.targets()[k]) as int] != gone,
{
    reg.lemma_view_characterization();
    assert forall|k: int| 0 <= k < f.targets().len() implies reg.ids()[(f.targets()[k]) as int]
        != gone by {
        if reg.ids()[(f.targets()[k]) as int] == gone {
            assert(reg.ids().contains(gone));
            assert(reg.ids().to_set().contains(gone));
        }
    }
}

} // verus!
