use vstd::prelude::*;
use crate::handshake::{accepted_username, get_username};

verus! {

/// Where a connection stands: it has to name itself, it is in the room, or it
/// is done.
#[derive(PartialEq, Eq, Structural, Clone, Copy, Debug)]
pub enum Phase {
    Handshaking,
    Active,
    Closed,
}

/// What the connection's reader produced.
pub enum Input {
    /// One line, with its newline if it had one.
    Line(String),
    /// The peer closed the stream.
    Eof,
    /// Reading failed.
    ReadFailed,
}

/// What the driver of the connection has to do next.
#[derive(Debug, PartialEq, Eq)]
pub enum Step {
    /// Join the room under this name.
    Join(String),
    /// Close the connection without joining; no line explains why.
    Reject,
    /// Hand this line to the room as a chat message.
    Broadcast(String),
    /// Leave the room, then close the connection.
    Leave,
    /// Nothing: the session is over.
    Ignore,
}

pub open spec fn next_phase(p: Phase, i: Input) -> Phase {
    match p {
        Phase::Handshaking => match i {
            Input::Line(l) => if accepted_username(l@) is Some {
                Phase::Active
            } else {
                Phase::Closed
            },
            _ => Phase::Closed,
        },
        Phase::Active => match i {
            Input::Line(_) => Phase::Active,
            _ => Phase::Closed,
        },
        Phase::Closed => Phase::Closed,
    }
}

/// Whether this input, in this phase, makes the connection join the room.
pub open spec fn joins_on(p: Phase, i: Input) -> bool {
    p == Phase::Handshaking && next_phase(p, i) == Phase::Active
}

/// Whether this input, in this phase, makes the connection leave the room.
pub open spec fn leaves_on(p: Phase, i: Input) -> bool {
    p == Phase::Active && next_phase(p, i) == Phase::Closed
}

/// Whether this input, in this phase, is a chat line for the room.
pub open spec fn broadcasts_on(p: Phase, i: Input) -> bool {
    p == Phase::Active && i is Line
}

/// The phase after a run of inputs from `p`, with the number of joins, of
/// chat lines and of leaves on the way.
pub open spec fn run(p: Phase, inputs: Seq<Input>) -> (Phase, nat, nat, nat)
    decreases inputs.len(),
{
    if inputs.len() == 0 {
        (p, 0, 0, 0)
    } else {
        let (q, j, b, l) = run(p, inputs.drop_last());
        let i = inputs.last();
        (
            next_phase(q, i),
            if joins_on(q, i) { j + 1 } else { j },
            if broadcasts_on(q, i) { b + 1 } else { b },
            if leaves_on(q, i) { l + 1 } else { l },
        )
    }
}

/// One connection of the chat, from its handshake to its end.
pub struct Session {
    phase: Phase,
}

impl Session {
    pub closed spec fn phase_of(&self) -> Phase {
        self.phase
    }

    /// A connection that has yet to name itself.
    pub fn new() -> (r: Session)
        ensures
            r.phase_of() == Phase::Handshaking,
    {
        Session { phase: Phase::Handshaking }
    }

    pub fn phase(&self) -> (r: Phase)
        ensures
            r == self.phase_of(),
    {
        self.phase
    }

    /// Takes what the reader produced and says what to do with it.
    pub fn on_input(&mut self, input: Input) -> (r: Step)
        ensures
            final(self).phase_of() == next_phase(old(self).phase_of(), input),
            r is Join <==> joins_on(old(self).phase_of(), input),
            r is Leave <==> leaves_on(old(self).phase_of(), input),
            r matches Step::Join(n) ==> input matches Input::Line(l) && accepted_username(l@) == Some(n@),
            r is Reject <==> (old(self).phase_of() == Phase::Handshaking && !joins_on(old(self).phase_of(), input)),
            r matches Step::Broadcast(m) ==> input matches Input::Line(l) && m@ == l@,
            r is Broadcast <==> (old(self).phase_of() == Phase::Active && input is Line),
            r is Ignore <==> old(self).phase_of() == Phase::Closed,
    {
        match self.phase {
            Phase::Handshaking => match input {
                Input::Line(l) => match get_username(l.as_str()) {
                    Ok(name) => {
                        self.phase = Phase::Active;
                        Step::Join(name)
                    },
                    Err(_) => {
                        self.phase = Phase::Closed;
                        Step::Reject
                    },
                },
                _ => {
                    self.phase = Phase::Closed;
                    Step::Reject
                },
            },
            Phase::Active => match input {
                Input::Line(l) => Step::Broadcast(l),
                _ => {
                    self.phase = Phase::Closed;
                    Step::Leave
                },
            },
            Phase::Closed => Step::Ignore,
        }
    }
}

/// Whatever a connection's reader produces, and whether it ends in a clean
/// close or a failed read, the connection leaves the room at most once and
/// only after joining it, and once it is closed after joining it has left
/// exactly once.
pub proof fn lemma_leave_exactly_once(inputs: Seq<Input>)
    ensures
        run(Phase::Handshaking, inputs).3 <= run(Phase::Handshaking, inputs).1 <= 1,
        run(Phase::Handshaking, inputs).0 == Phase::Handshaking ==> run(Phase::Handshaking, inputs).1 == 0,
        run(Phase::Handshaking, inputs).0 == Phase::Active ==> run(Phase::Handshaking, inputs).1 == 1
            && run(Phase::Handshaking, inputs).3 == 0,
        run(Phase::Handshaking, inputs).0 == Phase::Closed ==> run(Phase::Handshaking, inputs).3
            == run(Phase::Handshaking, inputs).1,
    decreases inputs.len(),
{
    if inputs.len() > 0 {
        lemma_leave_exactly_once(inputs.drop_last());
    }
}

/// A connection that names itself acceptably, sends `lines`, and then ends,
/// by a clean close or a failed read, joins once, hands each of its lines to
/// the room, and then leaves once.
pub proof fn lemma_lines_then_one_leave(name: Input, lines: Seq<Input>, end: Input)
    requires
        name matches Input::Line(n) && accepted_username(n@) is Some,
        forall|k: int| 0 <= k < lines.len() ==> #[trigger] lines[k] is Line,
        !(end is Line),
    ensures
        run(Phase::Handshaking, seq![name] + lines + seq![end]) == (Phase::Closed, 1nat, lines.len(), 1nat),
{
    lemma_active_lines(name, lines);
    let all = seq![name] + lines + seq![end];
    assert(all.drop_last() =~= seq![name] + lines);
}

proof fn lemma_active_lines(name: Input, lines: Seq<Input>)
    requires
        name matches Input::Line(n) && accepted_username(n@) is Some,
        forall|k: int| 0 <= k < lines.len() ==> #[trigger] lines[k] is Line,
    ensures
        run(Phase::Handshaking, seq![name] + lines) == (Phase::Active, 1nat, lines.len(), 0nat),
    decreases lines.len(),
{
    if lines.len() == 0 {
        assert(seq![name] + lines =~= seq![name]);
        assert(seq![name].drop_last() =~= Seq::<Input>::empty());
        assert(seq![name].last() == name);
        assert(run(Phase::Handshaking, Seq::<Input>::empty()) == (Phase::Handshaking, 0nat, 0nat, 0nat));
        assert(next_phase(Phase::Handshaking, name) == Phase::Active);
    } else {
        let prev = lines.drop_last();
        assert forall|k: int| 0 <= k < prev.len() implies #[trigger] prev[k] is Line by {
            assert(prev[k] == lines[k]);
        }
        lemma_active_lines(name, prev);
        assert((seq![name] + lines).drop_last() =~= seq![name] + prev);
        assert(lines[lines.len() - 1] is Line);
        assert((seq![name] + lines).last() == lines[lines.len() - 1]);
    }
}

} // verus!
