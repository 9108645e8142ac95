//! Which loop markers belong together.
//!
//! Everything here is stated over the nesting depth of a prefix of the
//! program text: the number of loop-open markers in it minus the number of
//! loop-close markers.

use crate::interpreter::Error;
use vstd::prelude::*;

verus! {

/// The byte `[`, which opens a loop.
pub const LOOP_OPEN: u8 = 91;

/// The byte `]`, which closes a loop.
pub const LOOP_CLOSE: u8 = 93;

/// Nesting depth after the first `n` bytes of `text`.
pub open spec fn depth(text: Seq<u8>, n: int) -> int
    decreases n,
{
    if n <= 0 {
        0
    } else if text[n - 1] == LOOP_OPEN {
        depth(text, n - 1) + 1
    } else if text[n - 1] == LOOP_CLOSE {
        depth(text, n - 1) - 1
    } else {
        depth(text, n - 1)
    }
}

/// The marker at `open` and the marker at `close` delimit one loop: the depth
/// comes back to what it was before `open` for the first time just after
/// `close`.
pub open spec fn is_pair(text: Seq<u8>, open: int, close: int) -> bool {
    &&& 0 <= open < close < text.len()
    &&& text[open] == LOOP_OPEN
    &&& text[close] == LOOP_CLOSE
    &&& depth(text, close + 1) == depth(text, open)
    &&& forall|k: int| open < k <= close ==> #[trigger] depth(text, k) > depth(text, open)
}

/// The loop-close marker that is paired with the loop-open marker at `open`.
pub open spec fn close_of(text: Seq<u8>, open: int) -> int {
    choose|close: int| is_pair(text, open, close)
}

/// The loop-open marker that is paired with the loop-close marker at `close`.
pub open spec fn open_of(text: Seq<u8>, close: int) -> int {
    choose|open: int| is_pair(text, open, close)
}

/// No prefix of the first `n` bytes closes more loops than it has opened.
pub open spec fn never_negative(text: Seq<u8>, n: int) -> bool {
    forall|k: int| 0 <= k <= n ==> #[trigger] depth(text, k) >= 0
}

/// Every loop that is opened is closed, and nothing else is closed.
pub open spec fn balanced(text: Seq<u8>) -> bool {
    &&& never_negative(text, text.len() as int)
    &&& depth(text, text.len() as int) == 0
}

/// The loop-close marker at `position` is the first one that closes a loop
/// which was never opened.
pub open spec fn is_first_stray_close(text: Seq<u8>, position: int) -> bool {
    &&& 0 <= position < text.len()
    &&& never_negative(text, position)
    &&& depth(text, position + 1) < 0
}

/// The loop-open marker at `position` is never closed.
pub open spec fn is_unclosed(text: Seq<u8>, position: int) -> bool {
    &&& 0 <= position < text.len()
    &&& text[position] == LOOP_OPEN
    &&& forall|k: int|
        position < k <= text.len() ==> #[trigger] depth(text, k) > depth(text, position)
}

/// The loop-open marker at `position` is never closed, and no marker to its
/// left is.
pub open spec fn is_outermost_unclosed(text: Seq<u8>, position: int) -> bool {
    &&& is_unclosed(text, position)
    &&& forall|q: int| #[trigger] is_unclosed(text, q) ==> position <= q
}

/// `error` says what is wrong with the nesting of `text`: it names the first
/// loop-close marker that has nothing to close, or, where there is none, the
/// leftmost loop-open marker that is never closed.
pub open spec fn is_nesting_fault(text: Seq<u8>, error: Error) -> bool {
    match error {
        Error::StrayCloseMarker { position } => is_first_stray_close(text, position as int),
        Error::UnclosedOpenMarker { position } => {
            &&& never_negative(text, text.len() as int)
            &&& is_outermost_unclosed(text, position as int)
        },
        _ => false,
    }
}

/// A loop-open marker stands at `position`.
pub open spec fn is_open_at(text: Seq<u8>, position: int) -> bool {
    0 <= position < text.len() && text[position] == LOOP_OPEN
}

/// A loop-close marker stands at `position`.
pub open spec fn is_close_at(text: Seq<u8>, position: int) -> bool {
    0 <= position < text.len() && text[position] == LOOP_CLOSE
}

/// `table` is the jump table of `text`: it sends each loop-open marker, and
/// nothing else, to the loop-close marker it is paired with, and reaches
/// every loop-close marker.
pub open spec fn is_jump_table(text: Seq<u8>, table: Map<usize, usize>) -> bool {
    &&& forall|open: usize| #[trigger] table.contains_key(open) <==> is_open_at(text, open as int)
    &&& forall|open: usize| #[trigger]
        table.contains_key(open) ==> is_pair(text, open as int, table[open] as int)
    &&& forall|close: usize| #[trigger]
        is_close_at(text, close as int) ==> exists|open: usize| #[trigger]
            table.contains_key(open) && table[open] == close
}

/// A loop-open marker has one partner, and so has a loop-close marker.
pub proof fn lemma_pair_unique(text: Seq<u8>, open1: int, close1: int, open2: int, close2: int)
    requires
        is_pair(text, open1, close1),
        is_pair(text, open2, close2),
    ensures
        open1 == open2 <==> close1 == close2,
{
    if open1 == open2 {
        if close1 < close2 {
            assert(depth(text, close1 + 1) > depth(text, open2));
        } else if close2 < close1 {
            assert(depth(text, close2 + 1) > depth(text, open1));
        }
    }
    if close1 == close2 {
        if open1 < open2 {
            assert(depth(text, open2) > depth(text, open1));
        } else if open2 < open1 {
            assert(depth(text, open1) > depth(text, open2));
        }
    }
}

/// A balanced text has no nesting fault, and any other text has at most one.
pub proof fn lemma_nesting_fault_unique(text: Seq<u8>, error1: Error, error2: Error)
    requires
        is_nesting_fault(text, error1),
        is_nesting_fault(text, error2),
    ensures
        !balanced(text),
        error1 == error2,
{
    let len = text.len() as int;
    match error1 {
        Error::StrayCloseMarker { position } => {
            assert(depth(text, position + 1) < 0);
        },
        Error::UnclosedOpenMarker { position } => {
            assert(depth(text, len) > depth(text, position as int));
            assert(depth(text, position as int) >= 0);
        },
        _ => {},
    }
    match (error1, error2) {
        (
            Error::StrayCloseMarker { position: first },
            Error::StrayCloseMarker { position: second },
        ) => {
            if first < second {
                assert(depth(text, first + 1) >= 0);
            } else if second < first {
                assert(depth(text, second + 1) >= 0);
            }
        },
        (Error::StrayCloseMarker { position }, Error::UnclosedOpenMarker { .. }) => {
            assert(depth(text, position + 1) >= 0);
        },
        (Error::UnclosedOpenMarker { .. }, Error::StrayCloseMarker { position }) => {
            assert(depth(text, position + 1) >= 0);
        },
        (
            Error::UnclosedOpenMarker { position: first },
            Error::UnclosedOpenMarker { position: second },
        ) => {
            assert(is_unclosed(text, first as int));
            assert(is_unclosed(text, second as int));
        },
        _ => {},
    }
}

/// Going from a loop-open marker to its partner and back ends at the same
/// marker, and so does going from a loop-close marker to its partner and on.
pub proof fn lemma_partners_undo_each_other(text: Seq<u8>, open: int, close: int)
    requires
        is_pair(text, open, close),
    ensures
        close_of(text, open) == close,
        open_of(text, close) == open,
        open_of(text, close_of(text, open)) == open,
        close_of(text, open_of(text, close)) == close,
{
    lemma_pair_unique(text, open, close, open, close_of(text, open));
    lemma_pair_unique(text, open, close, open_of(text, close), close);
}

/// Looks to the right of the loop-open marker at `open`, from `from` on, for
/// the place where the depth comes back to what it was before `open`.
proof fn lemma_search_close(text: Seq<u8>, open: int, from: int) -> (close: int)
    requires
        balanced(text),
        is_open_at(text, open),
        open < from <= text.len(),
        forall|k: int| open < k <= from ==> #[trigger] depth(text, k) > depth(text, open),
    ensures
        is_pair(text, open, close),
    decreases text.len() - from,
{
    assert(depth(text, open) >= 0);
    if from == text.len() {
        assert(depth(text, from) > depth(text, open));
        from
    } else if depth(text, from + 1) > depth(text, open) {
        lemma_search_close(text, open, from + 1)
    } else {
        assert(depth(text, from) > depth(text, open));
        from
    }
}

/// Looks to the left of the loop-close marker at `close`, from `from` on,
/// for the place where the depth was what it is after `close`.
proof fn lemma_search_open(text: Seq<u8>, close: int, from: int) -> (open: int)
    requires
        balanced(text),
        is_close_at(text, close),
        0 <= from <= close,
        forall|k: int| from < k <= close ==> #[trigger] depth(text, k) > depth(text, close + 1),
    ensures
        is_pair(text, open, close),
    decreases from,
{
    assert(depth(text, close + 1) >= 0);
    assert(depth(text, close) == depth(text, close + 1) + 1);
    if depth(text, from) > depth(text, close + 1) {
        assert(from > 0);
        lemma_search_open(text, close, from - 1)
    } else {
        assert(depth(text, from + 1) > depth(text, close + 1));
        from
    }
}

/// In a balanced text every loop marker has its partner.
pub proof fn lemma_balanced_markers_have_partners(text: Seq<u8>, position: int)
    requires
        balanced(text),
    ensures
        is_open_at(text, position) ==> is_pair(text, position, close_of(text, position)),
        is_close_at(text, position) ==> is_pair(text, open_of(text, position), position),
{
    if is_open_at(text, position) {
        assert(depth(text, position + 1) > depth(text, position));
        let close = lemma_search_close(text, position, position + 1);
    }
    if is_close_at(text, position) {
        let open = lemma_search_open(text, position, position);
    }
}

/// A text has at most one jump table.
pub proof fn lemma_jump_table_unique(
    text: Seq<u8>,
    table1: Map<usize, usize>,
    table2: Map<usize, usize>,
)
    requires
        is_jump_table(text, table1),
        is_jump_table(text, table2),
    ensures
        table1 == table2,
{
    assert forall|open: usize| #[trigger] table1.contains_key(open) implies table1[open]
        == table2[open] by {
        assert(table2.contains_key(open));
        lemma_pair_unique(text, open as int, table1[open] as int, open as int, table2[open] as int);
    }
    assert(table1 =~= table2);
}

/// The jump table and the table made by turning it around undo each other.
///
/// The jump table is one-to-one. Going from a loop-open marker to its
/// loop-close marker and back ends at the same marker, and so does going from
/// a loop-close marker to its loop-open marker and on. The table made by
/// turning the jump table around holds every loop-close marker of the text
/// and nothing else.
pub proof fn lemma_jump_tables_undo_each_other(text: Seq<u8>, table: Map<usize, usize>)
    requires
        balanced(text),
        is_jump_table(text, table),
    ensures
        table.is_injective(),
        forall|open: usize| #[trigger]
            table.contains_key(open) ==> table.invert().contains_key(table[open])
                && table.invert()[table[open]] == open,
        forall|close: usize| #[trigger]
            table.invert().contains_key(close) ==> table.contains_key(
                table.invert()[close],
            ) && table[table.invert()[close]] == close,
        forall|close: usize| #[trigger]
            table.invert().contains_key(close) <==> is_close_at(text, close as int),
        forall|close: usize| #[trigger]
            table.invert().contains_key(close) ==> is_pair(
                text,
                table.invert()[close] as int,
                close as int,
            ),
{
    let reverse = table.invert();
    assert forall|x: usize, y: usize|
        x != y && table.dom().contains(x) && table.dom().contains(
            y,
        ) implies #[trigger] table[x] != #[trigger] table[y] by {
        lemma_pair_unique(text, x as int, table[x] as int, y as int, table[y] as int);
    }
    assert forall|close: usize| #[trigger] reverse.contains_key(close) implies table.contains_key(
        reverse[close],
    ) && table[reverse[close]] == close && is_pair(text, reverse[close] as int, close as int) by {
        assert(table.contains_value(close));
        let witness = choose|open: usize| #[trigger]
            table.dom().contains(open) && table[open] == close;
        assert(table.contains_pair(witness, close));
    }
    assert forall|open: usize| #[trigger] table.contains_key(open) implies reverse.contains_key(
        table[open],
    ) && reverse[table[open]] == open by {
        let close = table[open];
        assert(table.contains_pair(open, close));
        assert(table.contains_value(close));
        let back = reverse[close];
        assert(table.contains_pair(back, close));
    }
    assert forall|close: usize| #[trigger]
        reverse.contains_key(close) <==> is_close_at(text, close as int) by {
        if reverse.contains_key(close) {
            assert(is_pair(text, reverse[close] as int, close as int));
        }
        if is_close_at(text, close as int) {
            let open = choose|open: usize| #[trigger]
                table.contains_key(open) && table[open] == close;
            assert(table.contains_pair(open, close));
            assert(table.contains_value(close));
        }
    }
}

} // verus!
