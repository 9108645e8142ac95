//! The mathematical model of the machine.
//!
//! A [`Machine`] is a tape, a data pointer and an instruction cursor.
//! [`step`] says what one instruction does to it, and [`run`] what a bounded
//! number of instructions does. The executable engine is proved against
//! these two functions.

use crate::brackets::{
    balanced, close_of, lemma_balanced_markers_have_partners, open_of, LOOP_CLOSE, LOOP_OPEN,
};
use crate::interpreter::{Error, CELL_COUNT};
use vstd::prelude::*;

verus! {

/// The byte `>`, which moves the data pointer one cell to the right.
pub const MOVE_RIGHT: u8 = 62;

/// The byte `<`, which moves the data pointer one cell to the left.
pub const MOVE_LEFT: u8 = 60;

/// The byte `+`, which adds one to the current cell.
pub const INCREMENT: u8 = 43;

/// The byte `-`, which subtracts one from the current cell.
pub const DECREMENT: u8 = 45;

/// The byte `.`, which writes the current cell to the terminal.
pub const OUTPUT: u8 = 46;

/// The byte `,`, which reads one byte from the terminal into the current cell.
pub const INPUT: u8 = 44;

/// Whether `byte` is one of the eight instructions.
pub open spec fn is_instruction(byte: u8) -> bool {
    ||| byte == MOVE_RIGHT
    ||| byte == MOVE_LEFT
    ||| byte == INCREMENT
    ||| byte == DECREMENT
    ||| byte == OUTPUT
    ||| byte == INPUT
    ||| byte == LOOP_OPEN
    ||| byte == LOOP_CLOSE
}

/// The state of an execution.
pub struct Machine {
    /// The tape.
    pub cells: Seq<u8>,
    /// The data pointer: the index of the current cell.
    pub address: int,
    /// The offset in the program text of the instruction to execute next.
    pub cursor: int,
}

impl Machine {
    /// The machine before the first instruction: the data pointer on the
    /// first cell of a tape holding `cells`, the cursor on the first byte.
    pub open spec fn start(cells: Seq<u8>) -> Machine {
        Machine { cells, address: 0, cursor: 0 }
    }

    /// The tape has its full length, the data pointer is on the tape, and the
    /// cursor is inside `text` or just behind it.
    pub open spec fn valid(self, text: Seq<u8>) -> bool {
        &&& self.cells.len() == CELL_COUNT
        &&& 0 <= self.address < CELL_COUNT
        &&& 0 <= self.cursor <= text.len()
    }

    /// The cursor is behind the last byte of `text`: nothing is left to do.
    pub open spec fn finished(self, text: Seq<u8>) -> bool {
        self.cursor >= text.len()
    }

    /// The next instruction reads from the terminal.
    pub open spec fn awaits_key(self, text: Seq<u8>) -> bool {
        !self.finished(text) && text[self.cursor] == INPUT
    }

    /// The value of the current cell.
    pub open spec fn current(self) -> u8 {
        self.cells[self.address]
    }
}

/// The byte that the next instruction writes to the terminal, if it writes one.
pub open spec fn emitted(text: Seq<u8>, m: Machine) -> Option<u8> {
    if !m.finished(text) && text[m.cursor] == OUTPUT {
        Some(m.current())
    } else {
        None
    }
}

/// What the instruction under the cursor does to `m`.
///
/// `key` is what the terminal delivers if the instruction is an input: a
/// byte, or `None` for a failed read. No other instruction looks at it. An
/// instruction that fails leaves the machine as it is, so only the error is
/// returned. A finished machine stays as it is.
pub open spec fn step(text: Seq<u8>, m: Machine, key: Option<u8>) -> Result<Machine, Error> {
    let op = text[m.cursor];
    let onward = Machine { cursor: m.cursor + 1, ..m };
    if m.finished(text) {
        Ok(m)
    } else if op == MOVE_RIGHT {
        if m.address < CELL_COUNT - 1 {
            Ok(Machine { address: m.address + 1, ..onward })
        } else {
            Err(Error::PointerOutOfRightBound)
        }
    } else if op == MOVE_LEFT {
        if m.address > 0 {
            Ok(Machine { address: m.address - 1, ..onward })
        } else {
            Err(Error::PointerOutOfLeftBound)
        }
    } else if op == INCREMENT {
        if m.current() < 255 {
            Ok(Machine { cells: m.cells.update(m.address, (m.current() + 1) as u8), ..onward })
        } else {
            Err(Error::CellOverflow { position: m.address as usize })
        }
    } else if op == DECREMENT {
        if m.current() > 0 {
            Ok(Machine { cells: m.cells.update(m.address, (m.current() - 1) as u8), ..onward })
        } else {
            Err(Error::CellUnderflow { position: m.address as usize })
        }
    } else if op == INPUT {
        match key {
            Some(byte) => Ok(Machine { cells: m.cells.update(m.address, byte), ..onward }),
            None => Err(Error::IoError),
        }
    } else if op == LOOP_OPEN && m.current() == 0 {
        Ok(Machine { cursor: close_of(text, m.cursor) + 1, ..m })
    } else if op == LOOP_CLOSE && m.current() != 0 {
        Ok(Machine { cursor: open_of(text, m.cursor), ..m })
    } else {
        Ok(onward)
    }
}

/// How a bounded run ended.
pub enum Status {
    /// The cursor passed the last byte of the program.
    Finished,
    /// The step limit was reached first.
    Paused,
    /// An instruction failed.
    Failed(Error),
}

/// The machine at the end of a bounded run, and how the run ended.
pub struct Outcome {
    pub machine: Machine,
    pub status: Status,
}

/// Runs `m` for at most `fuel` instructions.
///
/// `keys` is what the terminal delivers, in order: the first input
/// instruction takes the first entry, and so on. An input instruction that
/// finds `keys` used up fails like a failed read. A run that fails stops at
/// the failing instruction with everything before it done.
pub open spec fn run(text: Seq<u8>, m: Machine, keys: Seq<Option<u8>>, fuel: nat) -> Outcome
    decreases fuel,
{
    if m.finished(text) {
        Outcome { machine: m, status: Status::Finished }
    } else if fuel == 0 {
        Outcome { machine: m, status: Status::Paused }
    } else {
        let reads = m.awaits_key(text) && keys.len() > 0;
        let key = if reads {
            keys[0]
        } else {
            None
        };
        match step(text, m, key) {
            Err(error) => Outcome { machine: m, status: Status::Failed(error) },
            Ok(next) => run(
                text,
                next,
                if reads {
                    keys.drop_first()
                } else {
                    keys
                },
                (fuel - 1) as nat,
            ),
        }
    }
}

/// How a run ended, from what the execution reports: `Ok(true)` at the end
/// of the program, `Ok(false)` at the step limit, the error otherwise.
pub open spec fn status_of(report: Result<bool, Error>) -> Status {
    match report {
        Ok(true) => Status::Finished,
        Ok(false) => Status::Paused,
        Err(error) => Status::Failed(error),
    }
}

/// A run of `limit` instructions from `start` that is given `keys` first has
/// come to `now` with `fuel` instructions left: whatever keys follow, it goes
/// on as a run of `fuel` instructions from `now` on those keys.
pub open spec fn resumes(
    text: Seq<u8>,
    start: Machine,
    limit: nat,
    keys: Seq<Option<u8>>,
    now: Machine,
    fuel: nat,
) -> bool {
    forall|rest: Seq<Option<u8>>| #[trigger]
        run(text, start, keys + rest, limit) == run(text, now, rest, fuel)
}

/// A run has come to its own start without a key.
pub proof fn lemma_resumes_at_start(text: Seq<u8>, start: Machine, limit: nat)
    ensures
        resumes(text, start, limit, Seq::empty(), start, limit),
{
    assert forall|rest: Seq<Option<u8>>| #[trigger]
        run(text, start, Seq::empty() + rest, limit) == run(text, start, rest, limit) by {
        assert(Seq::<Option<u8>>::empty() + rest =~= rest);
    }
}

/// One instruction that succeeds takes a run one step on. If it is an
/// input, the key it was given joins the keys behind the run.
pub proof fn lemma_resumes_after_step(
    text: Seq<u8>,
    start: Machine,
    limit: nat,
    keys: Seq<Option<u8>>,
    now: Machine,
    fuel: nat,
    key: Option<u8>,
)
    requires
        resumes(text, start, limit, keys, now, fuel),
        fuel > 0,
        !now.finished(text),
        now.awaits_key(text) || key is None,
        step(text, now, key) is Ok,
    ensures
        resumes(
            text,
            start,
            limit,
            if now.awaits_key(text) {
                keys.push(key)
            } else {
                keys
            },
            step(text, now, key).unwrap(),
            (fuel - 1) as nat,
        ),
{
    let next = step(text, now, key).unwrap();
    let taken = if now.awaits_key(text) {
        keys.push(key)
    } else {
        keys
    };
    assert forall|rest: Seq<Option<u8>>| #[trigger]
        run(text, start, taken + rest, limit) == run(text, next, rest, (fuel - 1) as nat) by {
        if now.awaits_key(text) {
            let ahead = seq![key] + rest;
            assert(taken + rest =~= keys + ahead);
            assert(ahead.drop_first() =~= rest);
            assert(run(text, start, keys + ahead, limit) == run(text, now, ahead, fuel));
        } else {
            assert(run(text, start, keys + rest, limit) == run(text, now, rest, fuel));
        }
    }
}

/// Where a run has come to, it ends if no key follows: finished, paused, or
/// failed at the instruction that fails without a key.
pub proof fn lemma_resumes_at_end(
    text: Seq<u8>,
    start: Machine,
    limit: nat,
    keys: Seq<Option<u8>>,
    now: Machine,
    fuel: nat,
)
    requires
        resumes(text, start, limit, keys, now, fuel),
    ensures
        now.finished(text) ==> run(text, start, keys, limit) == (Outcome {
            machine: now,
            status: Status::Finished,
        }),
        !now.finished(text) && fuel == 0 ==> run(text, start, keys, limit) == (Outcome {
            machine: now,
            status: Status::Paused,
        }),
        !now.finished(text) && fuel > 0 && step(text, now, None) is Err ==> run(
            text,
            start,
            keys,
            limit,
        ) == (Outcome { machine: now, status: Status::Failed(step(text, now, None)->Err_0) }),
{
    let rest = Seq::<Option<u8>>::empty();
    assert(keys + rest =~= keys);
    assert(run(text, start, keys + rest, limit) == run(text, now, rest, fuel));
}

/// A byte that is no instruction changes neither the tape nor the data
/// pointer, writes nothing and reads nothing: the cursor moves past it.
pub proof fn lemma_commentary_changes_nothing(text: Seq<u8>, m: Machine, key: Option<u8>)
    requires
        !m.finished(text),
        !is_instruction(text[m.cursor]),
    ensures
        step(text, m, key) == Ok::<Machine, Error>(Machine { cursor: m.cursor + 1, ..m }),
        emitted(text, m) is None,
        !m.awaits_key(text),
{
}

/// The only instructions in `text` are increments and decrements; the other
/// bytes, if there are any, are commentary.
pub open spec fn only_counts(text: Seq<u8>) -> bool {
    forall|i: int|
        0 <= i < text.len() ==> #[trigger] text[i] == INCREMENT || text[i] == DECREMENT
            || !is_instruction(text[i])
}

/// The number of increments among the first `n` bytes of `text`, minus the
/// number of decrements.
pub open spec fn net_count(text: Seq<u8>, n: int) -> int
    decreases n,
{
    if n <= 0 {
        0
    } else if text[n - 1] == INCREMENT {
        net_count(text, n - 1) + 1
    } else if text[n - 1] == DECREMENT {
        net_count(text, n - 1) - 1
    } else {
        net_count(text, n - 1)
    }
}

/// `m` with `delta` added to the current cell and the cursor at `cursor`.
pub open spec fn counted(m: Machine, delta: int, cursor: int) -> Machine {
    Machine { cells: m.cells.update(m.address, (m.current() + delta) as u8), cursor, ..m }
}

/// In a program whose only instructions are increments and decrements, a run that keeps the current
/// cell within 0 and 255 up to the byte at `stop` comes to `stop` with the
/// net count added to the cell.
proof fn lemma_counting_run(
    text: Seq<u8>,
    m: Machine,
    keys: Seq<Option<u8>>,
    fuel: nat,
    stop: int,
)
    requires
        only_counts(text),
        m.valid(text),
        m.cursor <= stop <= text.len(),
        fuel >= stop - m.cursor,
        forall|j: int|
            m.cursor <= j <= stop ==> 0 <= m.current() + #[trigger] net_count(text, j) - net_count(
                text,
                m.cursor,
            ) <= 255,
    ensures
        run(text, m, keys, fuel) == run(
            text,
            counted(m, net_count(text, stop) - net_count(text, m.cursor), stop),
            keys,
            (fuel - (stop - m.cursor)) as nat,
        ),
    decreases stop - m.cursor,
{
    if m.cursor == stop {
        assert(counted(m, 0, stop).cells =~= m.cells);
    } else {
        let op = text[m.cursor];
        let next = step(text, m, None).unwrap();
        assert(0 <= m.current() + net_count(text, m.cursor + 1) - net_count(text, m.cursor) <= 255);
        assert(op == INCREMENT || op == DECREMENT || !is_instruction(op));
        assert(next.current() == m.current() + net_count(text, m.cursor + 1) - net_count(
            text,
            m.cursor,
        ));
        assert forall|j: int| next.cursor <= j <= stop implies 0 <= next.current()
            + #[trigger] net_count(text, j) - net_count(text, next.cursor) <= 255 by {
            assert(0 <= m.current() + net_count(text, j) - net_count(text, m.cursor) <= 255);
        }
        lemma_counting_run(text, next, keys, (fuel - 1) as nat, stop);
        assert(counted(next, net_count(text, stop) - net_count(text, next.cursor), stop).cells
            =~= counted(m, net_count(text, stop) - net_count(text, m.cursor), stop).cells);
    }
}

/// A program whose only instructions are increments and decrements, and
/// which never takes the current cell below 0 or above 255, finishes with
/// the number of increments minus the number of decrements added to that
/// cell and nothing else changed.
pub proof fn lemma_counting_program_finishes(
    text: Seq<u8>,
    m: Machine,
    keys: Seq<Option<u8>>,
    fuel: nat,
)
    requires
        only_counts(text),
        m.valid(text),
        m.cursor == 0,
        fuel >= text.len(),
        forall|j: int| 0 <= j <= text.len() ==> 0 <= m.current() + #[trigger] net_count(text, j) <= 255,
    ensures
        run(text, m, keys, fuel) == (Outcome {
            machine: counted(m, net_count(text, text.len() as int), text.len() as int),
            status: Status::Finished,
        }),
{
    lemma_counting_run(text, m, keys, fuel, text.len() as int);
}

/// A program whose only instructions are increments and decrements, and
/// which would take the current cell below 0 or above 255, fails where it
/// first would: at the byte at `at`, with a cell underflow or overflow at
/// the data pointer, the net count up to there added to the cell, and the
/// cell at 0 or 255. Nothing is clamped and nothing wraps around.
pub proof fn lemma_counting_program_fails(
    text: Seq<u8>,
    m: Machine,
    keys: Seq<Option<u8>>,
    fuel: nat,
    at: int,
)
    requires
        only_counts(text),
        m.valid(text),
        m.cursor == 0,
        0 <= at < text.len(),
        fuel > at,
        forall|j: int| 0 <= j <= at ==> 0 <= m.current() + #[trigger] net_count(text, j) <= 255,
        !(0 <= m.current() + net_count(text, at + 1) <= 255),
    ensures
        run(text, m, keys, fuel) == (Outcome {
            machine: counted(m, net_count(text, at), at),
            status: Status::Failed(
                if text[at] == INCREMENT {
                    Error::CellOverflow { position: m.address as usize }
                } else {
                    Error::CellUnderflow { position: m.address as usize }
                },
            ),
        }),
        counted(m, net_count(text, at), at).current() == if text[at] == INCREMENT {
            255u8
        } else {
            0u8
        },
{
    lemma_counting_run(text, m, keys, fuel, at);
    let here = counted(m, net_count(text, at), at);
    assert(0 <= m.current() + net_count(text, at) <= 255);
    assert(text[at] == INCREMENT || text[at] == DECREMENT || !is_instruction(text[at]));
    assert(!here.awaits_key(text));
}

/// On a balanced program an instruction takes a valid machine to a valid
/// machine: the tape keeps its length, the data pointer stays on the tape,
/// and the cursor stays inside the program or just behind it.
pub proof fn lemma_step_keeps_valid(text: Seq<u8>, m: Machine, key: Option<u8>)
    requires
        balanced(text),
        m.valid(text),
    ensures
        step(text, m, key) matches Ok(next) ==> next.valid(text),
{
    if !m.finished(text) {
        lemma_balanced_markers_have_partners(text, m.cursor);
    }
}

/// On a balanced program a run takes a valid machine to a valid machine.
pub proof fn lemma_run_keeps_valid(text: Seq<u8>, m: Machine, keys: Seq<Option<u8>>, fuel: nat)
    requires
        balanced(text),
        m.valid(text),
    ensures
        run(text, m, keys, fuel).machine.valid(text),
    decreases fuel,
{
    if !m.finished(text) && fuel > 0 {
        let reads = m.awaits_key(text) && keys.len() > 0;
        let key = if reads {
            keys[0]
        } else {
            None
        };
        lemma_step_keeps_valid(text, m, key);
        match step(text, m, key) {
            Ok(next) => {
                lemma_run_keeps_valid(
                    text,
                    next,
                    if reads {
                        keys.drop_first()
                    } else {
                        keys
                    },
                    (fuel - 1) as nat,
                );
            },
            Err(_) => {},
        }
    }
}

/// No byte of `text` is an input instruction.
pub open spec fn reads_nothing(text: Seq<u8>) -> bool {
    forall|i: int| 0 <= i < text.len() ==> #[trigger] text[i] != INPUT
}

/// A program without an input instruction runs the same whatever the
/// terminal would deliver.
pub proof fn lemma_run_without_input(
    text: Seq<u8>,
    m: Machine,
    keys: Seq<Option<u8>>,
    others: Seq<Option<u8>>,
    fuel: nat,
)
    requires
        balanced(text),
        reads_nothing(text),
        m.valid(text),
    ensures
        run(text, m, keys, fuel) == run(text, m, others, fuel),
    decreases fuel,
{
    if !m.finished(text) && fuel > 0 {
        assert(text[m.cursor] != INPUT);
        match step(text, m, None) {
            Ok(next) => {
                lemma_step_keeps_valid(text, m, None);
                lemma_run_without_input(text, next, keys, others, (fuel - 1) as nat);
            },
            Err(_) => {},
        }
    }
}

} // verus!
