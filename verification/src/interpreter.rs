//! The executable engine.
//!
//! [`find_matching_braces`] builds the jump table of a program,
//! [`Interpreter`] executes the program instruction by instruction, and
//! [`process_commands`] does both in one call. A call executes a bounded
//! number of instructions, so every call comes back; an execution that was
//! stopped by its bound can be taken up again.

use crate::brackets::{
    balanced, close_of, depth, is_close_at, is_jump_table, is_nesting_fault, is_open_at, is_pair,
    is_unclosed, lemma_jump_tables_undo_each_other, lemma_pair_unique, never_negative, open_of,
    LOOP_CLOSE, LOOP_OPEN,
};
use crate::console::{put_char, read_key};
use crate::machine::{
    emitted, lemma_resumes_after_step, lemma_resumes_at_end, lemma_resumes_at_start,
    lemma_run_without_input, reads_nothing, resumes, run, status_of, step, Machine, Outcome,
    DECREMENT, INCREMENT, INPUT, MOVE_LEFT, MOVE_RIGHT, OUTPUT,
};
use crate::utils::reverse_hash_map;
use std::collections::HashMap;
use vstd::prelude::*;

verus! {

/// The bytes of a program text.
pub open spec fn program_bytes(commands: &String) -> Seq<u8> {
    vstd::utf8::encode_utf8(commands@)
}

/// Why an execution stopped before the end of the program.
#[derive(Debug, Clone, Copy, PartialEq, Eq, Structural)]
pub enum Error {
    /// The cell at `position` held 255 and was to be incremented.
    CellOverflow { position: usize },
    /// The cell at `position` held 0 and was to be decremented.
    CellUnderflow { position: usize },
    /// The data pointer stood on the first cell and was to move left.
    PointerOutOfLeftBound,
    /// The data pointer stood on the last cell and was to move right.
    PointerOutOfRightBound,
    /// The loop-open marker at `position` is never closed.
    UnclosedOpenMarker { position: usize },
    /// The loop-close marker at `position` closes a loop that was never opened.
    StrayCloseMarker { position: usize },
    /// The terminal failed to deliver a byte.
    IoError,
}

/// The number of cells on the tape.
pub const CELL_COUNT: usize = 30_000;

/// The index of the cell that the instructions act on.
pub struct DataPointer {
    pub address: usize,
}

impl DataPointer {
    /// The address is on the tape.
    pub open spec fn in_bounds(&self) -> bool {
        self.address < CELL_COUNT
    }

    /// A pointer to the first cell.
    pub fn new() -> (pointer: DataPointer)
        ensures
            pointer.address == 0,
    {
        DataPointer { address: 0 }
    }

    /// Moves one cell to the right, unless the pointer stands on the last cell.
    pub fn increment(&mut self) -> (result: Result<(), Error>)
        ensures
            old(self).address < CELL_COUNT - 1 ==> result == Ok::<(), Error>(())
                && final(self).address == old(self).address + 1,
            old(self).address >= CELL_COUNT - 1 ==> result == Err::<(), Error>(
                Error::PointerOutOfRightBound,
            ) && final(self).address == old(self).address,
    {
        if self.address >= CELL_COUNT - 1 {
            return Err(Error::PointerOutOfRightBound);
        }
        self.address += 1;
        Ok(())
    }

    /// Moves one cell to the left, unless the pointer stands on the first cell.
    pub fn decrement(&mut self) -> (result: Result<(), Error>)
        ensures
            old(self).address > 0 ==> result == Ok::<(), Error>(()) && final(self).address == old(
                self,
            ).address - 1,
            old(self).address == 0 ==> result == Err::<(), Error>(Error::PointerOutOfLeftBound)
                && final(self).address == 0,
    {
        if self.address == 0 {
            return Err(Error::PointerOutOfLeftBound);
        }
        self.address -= 1;
        Ok(())
    }
}

/// A fresh tape: `CELL_COUNT` cells, each holding zero.
pub fn create_byte_cells() -> (byte_cells: [u8; CELL_COUNT])
    ensures
        byte_cells@ == Seq::new(CELL_COUNT as nat, |i: int| 0u8),
{
    let byte_cells: [u8; CELL_COUNT] = [0; CELL_COUNT];
    assert(byte_cells@ =~= Seq::new(CELL_COUNT as nat, |i: int| 0u8));
    byte_cells
}

/// Pairs each loop-open marker of `contents` with its loop-close marker.
///
/// The result maps the byte offset of every loop-open marker to the byte
/// offset of the marker that closes it. A text whose markers do not nest is
/// refused: with the first loop-close marker that has nothing to close, or
/// else with the leftmost loop-open marker that is never closed.
pub fn find_matching_braces(contents: &String) -> (result: Result<HashMap<usize, usize>, Error>)
    ensures
        result is Ok <==> balanced(program_bytes(contents)),
        match result {
            Ok(table) => is_jump_table(program_bytes(contents), table@),
            Err(error) => is_nesting_fault(program_bytes(contents), error),
        },
{
    broadcast use vstd::std_specs::hash::group_hash_axioms;

    let mut stack: Vec<usize> = Vec::new();
    let chars = contents.as_str().as_bytes();
    let ghost text = program_bytes(contents);
    let mut match_map: HashMap<usize, usize> = HashMap::new();

    let mut i: usize = 0;
    while i < chars.len()
        invariant
            text == program_bytes(contents),
            chars@ == text,
            0 <= i <= text.len(),
            never_negative(text, i as int),
            stack.len() == depth(text, i as int),
            forall|j: int|
                0 <= j < stack.len() ==> {
                    &&& (#[trigger] stack[j]) < i
                    &&& text[stack[j] as int] == LOOP_OPEN
                    &&& depth(text, stack[j] as int) == j
                },
            forall|j: int, k: int|
                0 <= j < stack.len() && stack[j] < k <= i ==> #[trigger] depth(text, k) > depth(
                    text,
                    #[trigger] stack[j] as int,
                ),
            forall|open: usize| #[trigger]
                match_map@.contains_key(open) ==> is_pair(
                    text,
                    open as int,
                    match_map@[open] as int,
                ) && match_map@[open] < i,
            forall|open: usize|
                open < i && #[trigger] is_open_at(text, open as int) ==> match_map@.contains_key(
                    open,
                ) || exists|j: int| 0 <= j < stack.len() && #[trigger] stack[j] == open,
            forall|close: usize|
                close < i && #[trigger] is_close_at(text, close as int) ==> exists|open: usize|
                    #[trigger] match_map@.contains_key(open) && match_map@[open] == close,
        decreases text.len() - i,
    {
        let byte = chars[i];
        assert(depth(text, i + 1) == depth(text, i as int) + if byte == LOOP_OPEN {
            1int
        } else if byte == LOOP_CLOSE {
            -1int
        } else {
            0int
        });
        if byte == LOOP_OPEN {
            let ghost pending = stack@;
            stack.push(i);
            proof {
                assert forall|open: usize|
                    open < i + 1 && #[trigger] is_open_at(
                        text,
                        open as int,
                    ) implies match_map@.contains_key(open) || exists|j: int|
                    0 <= j < stack.len() && #[trigger] stack[j] == open by {
                    if open == i {
                        assert(stack[pending.len() as int] == open);
                    } else if !match_map@.contains_key(open) {
                        let j = choose|j: int| 0 <= j < pending.len() && #[trigger] pending[j] == open;
                        assert(stack[j] == open);
                    }
                }
            }
        } else if byte == LOOP_CLOSE {
            let ghost pending = stack@;
            let ghost paired = match_map@;
            let left_brace_index = match stack.pop() {
                None => {
                    assert(depth(text, i + 1) < 0);
                    return Err(Error::StrayCloseMarker { position: i });
                },
                Some(index) => index,
            };
            match_map.insert(left_brace_index, i);
            proof {
                let top = pending.len() - 1;
                assert(pending[top] == left_brace_index);
                assert(is_pair(text, left_brace_index as int, i as int));
                // The marker that was just paired had no partner before.
                if paired.contains_key(left_brace_index) {
                    assert(is_pair(text, left_brace_index as int, paired[left_brace_index] as int));
                    assert(depth(text, paired[left_brace_index] + 1) > depth(
                        text,
                        pending[top] as int,
                    ));
                }
                assert forall|close: usize|
                    close < i + 1 && #[trigger] is_close_at(text, close as int) implies exists|
                    open: usize,
                | #[trigger]
                    match_map@.contains_key(open) && match_map@[open] == close by {
                    if close < i {
                        let open = choose|open: usize| #[trigger]
                            paired.contains_key(open) && paired[open] == close;
                        assert(match_map@.contains_key(open) && match_map@[open] == close);
                    } else {
                        assert(match_map@.contains_key(left_brace_index)
                            && match_map@[left_brace_index] == close);
                    }
                }
                assert forall|open: usize|
                    open < i + 1 && #[trigger] is_open_at(
                        text,
                        open as int,
                    ) implies match_map@.contains_key(open) || exists|j: int|
                    0 <= j < stack.len() && #[trigger] stack[j] == open by {
                    if !paired.contains_key(open) {
                        let j = choose|j: int| 0 <= j < pending.len() && #[trigger] pending[j] == open;
                        if j < top {
                            assert(stack[j] == open);
                        }
                    }
                }
            }
        }
        i += 1;
    }

    if stack.len() > 0 {
        proof {
            let first = stack[0] as int;
            assert(depth(text, first) == 0);
            assert forall|q: int| #[trigger] is_unclosed(text, q) implies first <= q by {
                if q < first {
                    assert(depth(text, first) > depth(text, q));
                    assert(depth(text, q) >= 0);
                }
            }
        }
        return Err(Error::UnclosedOpenMarker { position: stack[0] });
    }
    proof {
        assert forall|open: usize| #[trigger]
            match_map@.contains_key(open) <==> is_open_at(text, open as int) by {
            if match_map@.contains_key(open) {
                assert(is_pair(text, open as int, match_map@[open] as int));
            }
        }
    }
    Ok(match_map)
}

/// A program that is being executed: its text, its jump tables, the data
/// pointer and the instruction cursor. The tape stays with the caller.
pub struct Interpreter {
    commands: String,
    left_brace_pairs: HashMap<usize, usize>,
    right_brace_pairs: HashMap<usize, usize>,
    data_pointer: DataPointer,
    cursor: usize,
}

impl Interpreter {
    /// The bytes of the program.
    pub closed spec fn text(&self) -> Seq<u8> {
        program_bytes(&self.commands)
    }

    /// The address of the current cell.
    pub closed spec fn pointer(&self) -> int {
        self.data_pointer.address as int
    }

    /// The offset of the instruction that is executed next.
    pub closed spec fn position(&self) -> int {
        self.cursor as int
    }

    /// The machine that this execution and a tape holding `cells` make up.
    pub open spec fn machine(&self, cells: Seq<u8>) -> Machine {
        Machine { cells, address: self.pointer(), cursor: self.position() }
    }

    /// The program is balanced, the two tables are its jump table and that
    /// table turned around, the data pointer is on the tape, and the cursor
    /// is inside the program or just behind it.
    pub closed spec fn wf(&self) -> bool {
        &&& balanced(self.text())
        &&& is_jump_table(self.text(), self.left_brace_pairs@)
        &&& self.right_brace_pairs@ == self.left_brace_pairs@.invert()
        &&& self.data_pointer.in_bounds()
        &&& self.cursor <= self.text().len()
    }

    /// A well-formed execution is a valid machine on any full tape, over a
    /// balanced program.
    pub proof fn lemma_wf(&self, cells: Seq<u8>)
        requires
            self.wf(),
        ensures
            balanced(self.text()),
            cells.len() == CELL_COUNT ==> self.machine(cells).valid(self.text()),
    {
    }

    /// Prepares `commands` for execution: the data pointer on the first
    /// cell, the cursor on the first byte. A program whose loop markers do
    /// not nest is refused with its nesting fault.
    pub fn new(commands: String) -> (result: Result<Interpreter, Error>)
        ensures
            result is Ok <==> balanced(program_bytes(&commands)),
            match result {
                Ok(interpreter) => {
                    &&& interpreter.wf()
                    &&& interpreter.text() == program_bytes(&commands)
                    &&& interpreter.pointer() == 0
                    &&& interpreter.position() == 0
                },
                Err(error) => is_nesting_fault(program_bytes(&commands), error),
            },
    {
        broadcast use vstd::std_specs::hash::group_hash_axioms;

        let left_brace_pairs = match find_matching_braces(&commands) {
            Ok(table) => table,
            Err(error) => {
                return Err(error);
            },
        };
        proof {
            lemma_jump_tables_undo_each_other(program_bytes(&commands), left_brace_pairs@);
        }
        let right_brace_pairs = reverse_hash_map(&left_brace_pairs);
        Ok(
            Interpreter {
                commands,
                left_brace_pairs,
                right_brace_pairs,
                data_pointer: DataPointer::new(),
                cursor: 0,
            },
        )
    }

    /// The address of the current cell.
    pub fn address(&self) -> (address: usize)
        ensures
            address == self.pointer(),
    {
        self.data_pointer.address
    }

    /// The offset of the instruction that is executed next.
    pub fn cursor(&self) -> (cursor: usize)
        ensures
            cursor == self.position(),
    {
        self.cursor
    }

    /// Whether the cursor has passed the last byte of the program.
    pub fn is_finished(&self) -> (finished: bool)
        ensures
            finished == (self.position() >= self.text().len()),
    {
        self.cursor >= self.commands.as_str().as_bytes().len()
    }

    /// Whether the next instruction reads a key, so that [`Interpreter::step`]
    /// looks at the key it is given.
    pub fn awaits_key(&self) -> (awaits: bool)
        ensures
            awaits == (self.position() < self.text().len() && self.text()[self.position()]
                == INPUT),
    {
        let bytes = self.commands.as_str().as_bytes();
        self.cursor < bytes.len() && bytes[self.cursor] == INPUT
    }

    /// Executes the instruction under the cursor on `byte_cells`.
    ///
    /// `key` is what the terminal delivered, for the case that the
    /// instruction is an input. The result is the byte to write to the
    /// terminal, if the instruction is an output. An instruction that fails
    /// changes nothing.
    pub fn step(&mut self, byte_cells: &mut [u8; CELL_COUNT], key: Option<u8>) -> (result: Result<
        Option<u8>,
        Error,
    >)
        requires
            old(self).wf(),
        ensures
            final(self).wf(),
            final(self).text() == old(self).text(),
            match step(old(self).text(), old(self).machine(old(byte_cells)@), key) {
                Ok(next) => {
                    &&& result == Ok::<Option<u8>, Error>(
                        emitted(old(self).text(), old(self).machine(old(byte_cells)@)),
                    )
                    &&& final(self).machine(final(byte_cells)@) == next
                },
                Err(error) => {
                    &&& result == Err::<Option<u8>, Error>(error)
                    &&& final(self).machine(final(byte_cells)@) == old(self).machine(
                        old(byte_cells)@,
                    )
                },
            },
    {
        broadcast use vstd::std_specs::hash::group_hash_axioms;

        let ghost text = self.text();
        let ghost before = self.machine(byte_cells@);
        proof {
            lemma_jump_tables_undo_each_other(text, self.left_brace_pairs@);
        }
        let bytes = self.commands.as_str().as_bytes();
        if self.cursor >= bytes.len() {
            return Ok(None);
        }
        let op = bytes[self.cursor];
        let current_cell_byte = byte_cells[self.data_pointer.address];
        let mut output: Option<u8> = None;
        if op == MOVE_RIGHT {
            self.data_pointer.increment()?;
        } else if op == MOVE_LEFT {
            self.data_pointer.decrement()?;
        } else if op == INCREMENT {
            if current_cell_byte < 255 {
                byte_cells[self.data_pointer.address] = current_cell_byte + 1;
            } else {
                return Err(Error::CellOverflow { position: self.data_pointer.address });
            }
        } else if op == DECREMENT {
            if current_cell_byte > 0 {
                byte_cells[self.data_pointer.address] = current_cell_byte - 1;
            } else {
                return Err(Error::CellUnderflow { position: self.data_pointer.address });
            }
        } else if op == OUTPUT {
            output = Some(current_cell_byte);
        } else if op == INPUT {
            match key {
                Some(byte) => {
                    byte_cells[self.data_pointer.address] = byte;
                },
                None => {
                    return Err(Error::IoError);
                },
            }
        } else if op == LOOP_OPEN {
            if current_cell_byte == 0 {
                let close = *self.left_brace_pairs.get(&self.cursor).unwrap();
                proof {
                    let chosen = close_of(text, self.cursor as int);
                    lemma_pair_unique(
                        text,
                        self.cursor as int,
                        close as int,
                        self.cursor as int,
                        chosen,
                    );
                }
                self.cursor = close;
            }
        } else if op == LOOP_CLOSE {
            if current_cell_byte != 0 {
                assert(is_close_at(text, self.cursor as int));
                let open = *self.right_brace_pairs.get(&self.cursor).unwrap();
                proof {
                    let chosen = open_of(text, self.cursor as int);
                    lemma_pair_unique(text, open as int, self.cursor as int, chosen, self.cursor as int);
                }
                self.cursor = open;
                assert(self.machine(byte_cells@) == step(text, before, key).unwrap());
                return Ok(None);
            }
        }
        self.cursor += 1;
        assert(self.machine(byte_cells@).cells =~= step(text, before, key).unwrap().cells);
        Ok(output)
    }

    /// Executes at most `step_limit` instructions on `byte_cells`, reading
    /// keys from the terminal and writing to it.
    ///
    /// The result is `Ok(true)` when the cursor has passed the last byte of
    /// the program, and a newline is then written; `Ok(false)` when the
    /// limit was reached first, and another call goes on from there; the
    /// error of the instruction that failed, with everything before it done.
    /// What the terminal delivers is not known beforehand: the execution is
    /// the run of the model on some sequence of keys. For a program without
    /// an input instruction that is one run, whatever the keys.
    pub fn execute(&mut self, byte_cells: &mut [u8; CELL_COUNT], step_limit: u64) -> (result:
        Result<bool, Error>)
        requires
            old(self).wf(),
        ensures
            final(self).wf(),
            final(self).text() == old(self).text(),
            exists|keys: Seq<Option<u8>>|
                (#[trigger] run(
                    old(self).text(),
                    old(self).machine(old(byte_cells)@),
                    keys,
                    step_limit as nat,
                )) == (Outcome {
                    machine: final(self).machine(final(byte_cells)@),
                    status: status_of(result),
                }),
            reads_nothing(old(self).text()) ==> run(
                old(self).text(),
                old(self).machine(old(byte_cells)@),
                Seq::empty(),
                step_limit as nat,
            ) == (Outcome {
                machine: final(self).machine(final(byte_cells)@),
                status: status_of(result),
            }),
    {
        let ghost text = self.text();
        let ghost start = self.machine(byte_cells@);
        let ghost limit = step_limit as nat;
        let ghost mut keys = Seq::<Option<u8>>::empty();
        proof {
            lemma_resumes_at_start(text, start, limit);
            self.lemma_wf(byte_cells@);
        }
        let mut steps: u64 = 0;
        while steps < step_limit && !self.is_finished()
            invariant
                self.wf(),
                self.text() == text,
                text == old(self).text(),
                start == old(self).machine(old(byte_cells)@),
                balanced(text),
                start.valid(text),
                limit == step_limit,
                steps <= step_limit,
                resumes(text, start, limit, keys, self.machine(byte_cells@), (limit - steps) as nat),
            decreases step_limit - steps,
        {
            let ghost now = self.machine(byte_cells@);
            let key = if self.awaits_key() {
                read_key()
            } else {
                None
            };
            match self.step(byte_cells, key) {
                Ok(output) => {
                    if let Some(byte) = output {
                        put_char(byte);
                    }
                    proof {
                        lemma_resumes_after_step(
                            text,
                            start,
                            limit,
                            keys,
                            now,
                            (limit - steps) as nat,
                            key,
                        );
                        if now.awaits_key(text) {
                            keys = keys.push(key);
                        }
                    }
                },
                Err(error) => {
                    proof {
                        lemma_resumes_at_end(text, start, limit, keys, now, (limit - steps) as nat);
                        if reads_nothing(text) {
                            lemma_run_without_input(text, start, keys, Seq::empty(), limit);
                        }
                    }
                    return Err(error);
                },
            }
            steps += 1;
        }
        proof {
            lemma_resumes_at_end(
                text,
                start,
                limit,
                keys,
                self.machine(byte_cells@),
                (limit - steps) as nat,
            );
            if reads_nothing(text) {
                lemma_run_without_input(text, start, keys, Seq::empty(), limit);
            }
        }
        if self.is_finished() {
            put_char(10);
            Ok(true)
        } else {
            Ok(false)
        }
    }
}

/// Executes at most `step_limit` instructions of `commands` on `byte_cells`,
/// from the first cell and the first byte, reading keys from the terminal
/// and writing to it.
///
/// A program whose loop markers do not nest is refused with its nesting
/// fault before anything is executed. Otherwise the result is that of
/// [`Interpreter::execute`] on a fresh execution of `commands`: `Ok(true)`
/// at the end of the program, `Ok(false)` at the step limit, or the error of
/// the instruction that failed.
pub fn process_commands(
    byte_cells: &mut [u8; CELL_COUNT],
    commands: String,
    step_limit: u64,
) -> (result: Result<bool, Error>)
    ensures
        !balanced(program_bytes(&commands)) ==> {
            &&& final(byte_cells)@ == old(byte_cells)@
            &&& result matches Err(error) && is_nesting_fault(program_bytes(&commands), error)
        },
        balanced(program_bytes(&commands)) ==> exists|keys: Seq<Option<u8>>|
            {
                let outcome = #[trigger] run(
                    program_bytes(&commands),
                    Machine::start(old(byte_cells)@),
                    keys,
                    step_limit as nat,
                );
                &&& outcome.machine.cells == final(byte_cells)@
                &&& outcome.status == status_of(result)
            },
        balanced(program_bytes(&commands)) && reads_nothing(program_bytes(&commands)) ==> {
            let outcome = run(
                program_bytes(&commands),
                Machine::start(old(byte_cells)@),
                Seq::empty(),
                step_limit as nat,
            );
            &&& outcome.machine.cells == final(byte_cells)@
            &&& outcome.status == status_of(result)
        },
{
    let ghost text = program_bytes(&commands);
    let mut interpreter = match Interpreter::new(commands) {
        Ok(interpreter) => interpreter,
        Err(error) => {
            return Err(error);
        },
    };
    let ghost start = Machine::start(byte_cells@);
    assert(interpreter.machine(byte_cells@) == start);
    let result = interpreter.execute(byte_cells, step_limit);
    proof {
        let end = interpreter.machine(byte_cells@);
        let keys = choose|keys: Seq<Option<u8>>|
            (#[trigger] run(text, start, keys, step_limit as nat)) == (Outcome {
                machine: end,
                status: status_of(result),
            });
        assert(run(text, start, keys, step_limit as nat).machine.cells == byte_cells@);
    }
    result
}

} // verus!
