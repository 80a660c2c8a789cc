//! The Aces-Up engine: a four-column tableau fed from a shuffled deck, a
//! cascade cleanup that discards dominated tops, and a win check that asks
//! for a single ace in every column.

use vstd::prelude::*;
use crate::deck::{Card, GameError, Stack, face_up, suit_major_card};
use crate::game::Game;

verus! {

/// The four-column Aces-Up tableau together with its draw pile.
pub struct AcesUpGame {
    pub deck: Stack,
    pub columns: Vec<Vec<Card>>,
}

/// The mathematical view of a tableau: each column as a sequence of cards,
/// top last.
pub open spec fn col_views(cols: Vec<Vec<Card>>) -> Seq<Seq<Card>> {
    Seq::new(cols@.len(), |i: int| cols@[i]@)
}

/// Column `i` loses its top in the current cleanup pass: another exposed top
/// of the same suit beats it, by rank or, at equal rank, by coming first in
/// the scan.
pub open spec fn marked(cols: Seq<Seq<Card>>, i: int) -> bool {
    &&& 0 <= i < cols.len()
    &&& cols[i].len() > 0
    &&& exists|j: int| 0 <= j < cols.len() && j != i && (#[trigger] cols[j]).len() > 0
        && cols[j].last().suit == cols[i].last().suit
        && (cols[j].last().rank > cols[i].last().rank
            || (cols[j].last().rank == cols[i].last().rank && j < i))
}

/// One cleanup pass: every marked top comes off at once.
pub open spec fn cleanup_pass(cols: Seq<Seq<Card>>) -> Seq<Seq<Card>> {
    Seq::new(cols.len(), |i: int| if marked(cols, i) { cols[i].drop_last() } else { cols[i] })
}

/// A tableau from which a cleanup pass removes nothing.
pub open spec fn cleanup_stable(cols: Seq<Seq<Card>>) -> bool {
    forall|i: int| !marked(cols, i)
}

/// How many cards the tableau holds in all.
pub open spec fn total_cards(cols: Seq<Seq<Card>>) -> nat
    decreases cols.len(),
{
    if cols.len() == 0 {
        0
    } else {
        total_cards(cols.drop_last()) + cols.last().len()
    }
}

/// The fixed point the cascade cleanup reaches: passes are applied until one
/// removes nothing.
pub open spec fn cleaned(cols: Seq<Seq<Card>>) -> Seq<Seq<Card>>
    decreases total_cards(cols),
    via cleaned_decreases
{
    if cleanup_stable(cols) {
        cols
    } else {
        cleaned(cleanup_pass(cols))
    }
}

#[via_fn]
proof fn cleaned_decreases(cols: Seq<Seq<Card>>) {
    if !cleanup_stable(cols) {
        lemma_cleanup_pass_decreases(cols);
    }
}

proof fn lemma_total_cards_le(a: Seq<Seq<Card>>, b: Seq<Seq<Card>>)
    requires
        a.len() == b.len(),
        forall|i: int| 0 <= i < a.len() ==> (#[trigger] b[i]).len() <= a[i].len(),
    ensures
        total_cards(b) <= total_cards(a),
    decreases a.len(),
{
    if a.len() > 0 {
        lemma_total_cards_le(a.drop_last(), b.drop_last());
    }
}

proof fn lemma_total_cards_lt(a: Seq<Seq<Card>>, b: Seq<Seq<Card>>, w: int)
    requires
        a.len() == b.len(),
        forall|i: int| 0 <= i < a.len() ==> (#[trigger] b[i]).len() <= a[i].len(),
        0 <= w < a.len(),
        b[w].len() < a[w].len(),
    ensures
        total_cards(b) < total_cards(a),
    decreases a.len(),
{
    if w == a.len() - 1 {
        lemma_total_cards_le(a.drop_last(), b.drop_last());
    } else {
        lemma_total_cards_lt(a.drop_last(), b.drop_last(), w);
    }
}

proof fn lemma_cleanup_pass_decreases(cols: Seq<Seq<Card>>)
    requires
        !cleanup_stable(cols),
    ensures
        total_cards(cleanup_pass(cols)) < total_cards(cols),
{
    let w = choose|i: int| marked(cols, i);
    assert(cleanup_pass(cols)[w].len() < cols[w].len());
    lemma_total_cards_lt(cols, cleanup_pass(cols), w);
}

/// Law: the cascade always lands on a tableau that a further pass would
/// leave alone.
pub proof fn lemma_cleaned_stable(cols: Seq<Seq<Card>>)
    ensures
        cleanup_stable(cleaned(cols)),
    decreases total_cards(cols),
{
    if !cleanup_stable(cols) {
        lemma_cleanup_pass_decreases(cols);
        lemma_cleaned_stable(cleanup_pass(cols));
    }
}

/// Law: the cascade cleanup is idempotent; cleaning a second time changes
/// no column.
pub proof fn lemma_cleaned_idempotent(cols: Seq<Seq<Card>>)
    ensures
        cleaned(cleaned(cols)) == cleaned(cols),
{
    lemma_cleaned_stable(cols);
}

/// The rightmost open column, or -1 when every column holds a card.
pub open spec fn last_open(cols: Seq<Seq<Card>>) -> int
    decreases cols.len(),
{
    if cols.len() == 0 {
        -1
    } else if cols.last().len() == 0 {
        cols.len() - 1
    } else {
        last_open(cols.drop_last())
    }
}

/// The rightmost column whose exposed top is an ace, or -1 when none is.
pub open spec fn last_ace(cols: Seq<Seq<Card>>) -> int
    decreases cols.len(),
{
    if cols.len() == 0 {
        -1
    } else if cols.last().len() > 0 && cols.last().last().spec_is_ace() {
        cols.len() - 1
    } else {
        last_ace(cols.drop_last())
    }
}

impl AcesUpGame {
    /// A game always has exactly four columns and a sound draw pile.
    pub open spec fn wf(self) -> bool {
        &&& self.deck.wf()
        &&& self.columns@.len() == 4
    }

    /// Starts a game: a shuffled suit-major deck and four empty columns.
    pub fn new() -> (r: AcesUpGame)
        ensures
            r.wf(),
            r.deck.top == 0,
            r.deck.cards@.len() == 52,
            r.deck.undrawn().to_multiset()
                == Seq::new(52, |k: int| suit_major_card(k)).to_multiset(),
            forall|i: int| 0 <= i < 4 ==> (#[trigger] col_views(r.columns)[i]).len() == 0,
    {
        let mut deck = Stack::new_deck_reverse(false);
        proof {
            assert(deck.cards@ =~= Seq::new(52, |k: int| suit_major_card(k)));
            assert(deck.undrawn() =~= deck.cards@);
        }
        deck.shuffle();
        let mut columns: Vec<Vec<Card>> = Vec::new();
        columns.push(Vec::new());
        columns.push(Vec::new());
        columns.push(Vec::new());
        columns.push(Vec::new());
        let r = AcesUpGame { deck, columns };
        proof {
            assert(r.deck.undrawn() =~= r.deck.cards@);
        }
        r
    }

    /// Deals the round that opens a turn: one face-up card from the pile onto
    /// each of the four columns, in column order.
    pub fn turn(&mut self)
        requires
            old(self).wf(),
            old(self).deck.spec_size() >= 4,
        ensures
            final(self).wf(),
            final(self).deck.cards == old(self).deck.cards,
            final(self).deck.top == old(self).deck.top + 4,
            forall|i: int| 0 <= i < 4 ==> #[trigger] col_views(final(self).columns)[i]
                == col_views(old(self).columns)[i].push(
                    face_up(old(self).deck.cards@[old(self).deck.top + i])),
    {
        let mut i: usize = 0;
        while i < 4
            invariant
                i <= 4,
                old(self).wf(),
                self.wf(),
                self.deck.cards == old(self).deck.cards,
                self.deck.top == old(self).deck.top + i,
                old(self).deck.spec_size() >= 4,
                forall|j: int| 0 <= j < i ==> (#[trigger] self.columns@[j])@
                    == old(self).columns@[j]@.push(
                        face_up(old(self).deck.cards@[old(self).deck.top + j])),
                forall|j: int| i <= j < 4 ==> #[trigger] self.columns@[j]
                    == old(self).columns@[j],
            decreases 4 - i,
        {
            let mut card = match self.deck.draw() {
                Ok(c) => c,
                Err(_) => {
                    proof {
                        assert(false);
                    }
                    Card { suit: crate::deck::Suit::Joker, rank: 1, visible: true }
                },
            };
            card.set_visible(true);
            let ghost pre = self.columns@;
            let mut col = self.columns.remove(i);
            col.push(card);
            self.columns.insert(i, col);
            proof {
                assert(self.columns@ =~= pre.update(i as int, self.columns@[i as int]));
                assert(card == face_up(old(self).deck.cards@[old(self).deck.top + i]));
            }
            i = i + 1;
        }
        proof {
            assert forall|j: int| 0 <= j < 4 implies #[trigger] col_views(self.columns)[j]
                == col_views(old(self).columns)[j].push(
                    face_up(old(self).deck.cards@[old(self).deck.top + j])) by {
                assert(col_views(self.columns)[j] == self.columns@[j]@);
                assert(col_views(old(self).columns)[j] == old(self).columns@[j]@);
            }
        }
    }

    /// Whether column `i` loses its top in the pass now being scanned.
    fn col_marked(&self, i: usize) -> (r: bool)
        requires
            self.wf(),
            i < 4,
        ensures
            r == marked(col_views(self.columns), i as int),
    {
        let ghost cols = col_views(self.columns);
        proof {
            assert(cols[i as int] == self.columns@[i as int]@);
        }
        if self.columns[i].len() == 0 {
            return false;
        }
        let ci = self.columns[i].len() - 1;
        let top_i = self.columns[i][ci];
        proof {
            assert(top_i == cols[i as int].last());
        }
        let mut j: usize = 0;
        let mut found = false;
        while j < 4
            invariant
                j <= 4,
                i < 4,
                self.wf(),
                cols == col_views(self.columns),
                cols[i as int].len() > 0,
                top_i == cols[i as int].last(),
                found == exists|k: int| 0 <= k < j && k != i && (#[trigger] cols[k]).len() > 0
                    && cols[k].last().suit == top_i.suit
                    && (cols[k].last().rank > top_i.rank
                        || (cols[k].last().rank == top_i.rank && k < i)),
            decreases 4 - j,
        {
            proof {
                assert(cols[j as int] == self.columns@[j as int]@);
            }
            if j != i && self.columns[j].len() > 0 {
                let cj = self.columns[j].len() - 1;
                let top_j = self.columns[j][cj];
                proof {
                    assert(top_j == cols[j as int].last());
                }
                if top_j.suit == top_i.suit
                    && (top_j.rank > top_i.rank || (top_j.rank == top_i.rank && j < i)) {
                    found = true;
                }
            }
            j = j + 1;
        }
        found
    }

    /// Removes the exposed top of column `i`.
    fn pop_top(&mut self, i: usize)
        requires
            old(self).wf(),
            i < 4,
            old(self).columns@[i as int]@.len() > 0,
        ensures
            final(self).wf(),
            final(self).deck == old(self).deck,
            forall|j: int| 0 <= j < 4 && j != i ==> #[trigger] final(self).columns@[j]
                == old(self).columns@[j],
            final(self).columns@[i as int]@ == old(self).columns@[i as int]@.drop_last(),
    {
        let mut col = self.columns.remove(i);
        col.pop();
        self.columns.insert(i, col);
        proof {
            assert(self.columns@ =~= old(self).columns@.update(i as int, self.columns@[i as int]));
        }
    }

    /// The cascade cleanup: scan the exposed tops, mark every top another
    /// top of its suit beats, remove all marked tops at once, and repeat
    /// until a scan marks nothing.
    pub fn clean(&mut self)
        requires
            old(self).wf(),
        ensures
            final(self).wf(),
            final(self).deck == old(self).deck,
            col_views(final(self).columns) == cleaned(col_views(old(self).columns)),
            cleanup_stable(col_views(final(self).columns)),
    {
        let ghost orig = col_views(self.columns);
        let ghost deck0 = self.deck;
        loop
            invariant_except_break
                self.wf(),
                self.deck == deck0,
                cleaned(col_views(self.columns)) == cleaned(orig),
            ensures
                self.wf(),
                self.deck == deck0,
                cleanup_stable(col_views(self.columns)),
                cleaned(col_views(self.columns)) == cleaned(orig),
            decreases total_cards(col_views(self.columns)),
        {
            let m0 = self.col_marked(0);
            let m1 = self.col_marked(1);
            let m2 = self.col_marked(2);
            let m3 = self.col_marked(3);
            let ghost pre = col_views(self.columns);
            if !m0 && !m1 && !m2 && !m3 {
                proof {
                    assert forall|i: int| !marked(pre, i) by {
                        if 0 <= i < 4 {
                            assert(!marked(pre, i));
                        }
                    }
                }
                break;
            }
            proof {
                assert(pre[0].len() == self.columns@[0]@.len());
                assert(pre[1].len() == self.columns@[1]@.len());
                assert(pre[2].len() == self.columns@[2]@.len());
                assert(pre[3].len() == self.columns@[3]@.len());
            }
            if m0 {
                self.pop_top(0);
            }
            if m1 {
                self.pop_top(1);
            }
            if m2 {
                self.pop_top(2);
            }
            if m3 {
                self.pop_top(3);
            }
            proof {
                assert(col_views(self.columns) =~~= cleanup_pass(pre));
                assert(!cleanup_stable(pre));
                lemma_cleanup_pass_decreases(pre);
            }
        }
        proof {
            assert(col_views(self.columns) == cleaned(orig));
        }
    }

    /// Scans the columns and reports the rightmost open column and the
    /// rightmost exposed ace, each as an index or -1 when there is none.
    pub fn can_move_positions(&self) -> (r: (isize, isize))
        requires
            self.wf(),
        ensures
            r.0 == last_open(col_views(self.columns)),
            r.1 == last_ace(col_views(self.columns)),
    {
        let ghost cols = col_views(self.columns);
        let mut last_open_i: isize = -1;
        let mut last_ace_i: isize = -1;
        let mut i: usize = 0;
        while i < 4
            invariant
                i <= 4,
                self.wf(),
                cols == col_views(self.columns),
                last_open_i == last_open(cols.take(i as int)),
                last_ace_i == last_ace(cols.take(i as int)),
            decreases 4 - i,
        {
            proof {
                assert(cols[i as int] == self.columns@[i as int]@);
            }
            if self.columns[i].len() == 0 {
                last_open_i = i as isize;
            } else {
                let ci = self.columns[i].len() - 1;
                if self.columns[i][ci].is_ace() {
                    last_ace_i = i as isize;
                }
            }
            proof {
                assert(cols.take(i + 1).drop_last() =~= cols.take(i as int));
                assert(cols.take(i + 1).last() == cols[i as int]);
            }
            i = i + 1;
        }
        proof {
            assert(cols.take(4) =~= cols);
        }
        (last_open_i, last_ace_i)
    }

    /// Automatically relocates exposed aces: while an open column and an
    /// exposed ace exist, and that ace is not the card the previous
    /// relocation just placed, the rightmost exposed ace moves onto the
    /// rightmost open column.
    pub fn try_move_aces(&mut self)
        requires
            old(self).wf(),
        ensures
            final(self).wf(),
            final(self).deck == old(self).deck,
            exists|k: nat| {
                let end = #[trigger] ace_moves(col_views(old(self).columns), -1, k);
                col_views(final(self).columns) == end.0 && !ace_move_enabled(end.0, end.1)
            },
    {
        let ghost orig = col_views(self.columns);
        let ghost deck0 = self.deck;
        let mut last_move_dest: isize = -1;
        let ghost mut moves: nat = 0nat;
        loop
            invariant_except_break
                self.wf(),
                self.deck == deck0,
                (col_views(self.columns), last_move_dest as int) == ace_moves(orig, -1, moves),
                ace_loop_inv(col_views(self.columns), last_move_dest as int),
            ensures
                self.wf(),
                self.deck == deck0,
                exists|k: nat| {
                    let end = #[trigger] ace_moves(orig, -1, k);
                    col_views(self.columns) == end.0 && !ace_move_enabled(end.0, end.1)
                },
            decreases
                num_empty(col_views(self.columns)),
                ace_phase(col_views(self.columns), last_move_dest as int),
        {
            let ghost pre = col_views(self.columns);
            let ghost lmd = last_move_dest as int;
            let (lo, la) = self.can_move_positions();
            if last_move_dest == la {
                proof {
                    assert(!ace_move_enabled(pre, lmd));
                    assert(ace_moves(orig, -1, moves).0 == pre
                        && !ace_move_enabled(ace_moves(orig, -1, moves).0,
                            ace_moves(orig, -1, moves).1));
                }
                break;
            }
            if lo >= 0 && la >= 0 {
                proof {
                    assert(ace_move_enabled(pre, lmd));
                    lemma_last_open_props(pre);
                    lemma_last_ace_props(pre);
                }
                let from = la as usize;
                let to = lo as usize;
                let mut src = self.columns.remove(from);
                let card = match src.pop() {
                    Some(c) => c,
                    None => {
                        proof {
                            assert(false);
                        }
                        Card { suit: crate::deck::Suit::Joker, rank: 1, visible: true }
                    },
                };
                self.columns.insert(from, src);
                let mut dst = self.columns.remove(to);
                dst.push(card);
                self.columns.insert(to, dst);
                last_move_dest = lo;
                proof {
                    assert(col_views(self.columns) =~~= ace_move(pre, lmd).0);
                    lemma_ace_moves_snoc(orig, -1, moves);
                    moves = moves + 1;
                    lemma_ace_move_decreases(pre, lmd);
                }
            } else {
                proof {
                    assert(!ace_move_enabled(pre, lmd));
                    assert(ace_moves(orig, -1, moves).0 == pre
                        && !ace_move_enabled(ace_moves(orig, -1, moves).0,
                            ace_moves(orig, -1, moves).1));
                }
                break;
            }
        }
    }

    /// Relocates the top card of column `from` onto column `to`. Aces Up puts
    /// no suit or rank constraint on the move, but `from` must hold a card
    /// and `to` must be open; anything else is refused and changes nothing.
    pub fn handle_move(&mut self, from: usize, to: usize) -> (r: Result<(), GameError>)
        requires
            old(self).wf(),
        ensures
            final(self).wf(),
            final(self).deck == old(self).deck,
            (from >= 4 || to >= 4) ==> r == Err::<(), GameError>(GameError::InvalidLocation)
                && final(self).columns == old(self).columns,
            (from < 4 && to < 4
                && !(col_views(old(self).columns)[from as int].len() > 0
                    && col_views(old(self).columns)[to as int].len() == 0))
                ==> r == Err::<(), GameError>(GameError::IllegalMove)
                    && final(self).columns == old(self).columns,
            (from < 4 && to < 4
                && col_views(old(self).columns)[from as int].len() > 0
                && col_views(old(self).columns)[to as int].len() == 0)
                ==> r == Ok::<(), GameError>(())
                    && col_views(final(self).columns) == col_views(old(self).columns)
                        .update(from as int, col_views(old(self).columns)[from as int].drop_last())
                        .update(to as int, seq![col_views(old(self).columns)[from as int].last()]),
    {
        if from >= 4 || to >= 4 {
            return Err(GameError::InvalidLocation);
        }
        if self.columns[from].len() == 0 || self.columns[to].len() != 0 {
            return Err(GameError::IllegalMove);
        }
        let mut src = self.columns.remove(from);
        let card = match src.pop() {
            Some(c) => c,
            None => {
                proof {
                    assert(false);
                }
                Card { suit: crate::deck::Suit::Joker, rank: 1, visible: true }
            },
        };
        self.columns.insert(from, src);
        let mut dst = self.columns.remove(to);
        dst.push(card);
        self.columns.insert(to, dst);
        proof {
            assert(col_views(self.columns) =~~= col_views(old(self).columns)
                .update(from as int, col_views(old(self).columns)[from as int].drop_last())
                .update(to as int, seq![col_views(old(self).columns)[from as int].last()]));
        }
        Ok(())
    }
}

/// How many columns are open.
pub open spec fn num_empty(cols: Seq<Seq<Card>>) -> nat
    decreases cols.len(),
{
    if cols.len() == 0 {
        0
    } else {
        num_empty(cols.drop_last()) + (if cols.last().len() == 0 { 1nat } else { 0nat })
    }
}

/// Whether the automatic ace relocation still has a move: an open column and
/// an exposed ace exist, and the ace is not the card the previous move placed.
pub open spec fn ace_move_enabled(cols: Seq<Seq<Card>>, lmd: int) -> bool {
    last_open(cols) >= 0 && last_ace(cols) >= 0 && last_ace(cols) != lmd
}

/// One automatic ace relocation: the rightmost exposed ace moves onto the
/// rightmost open column, which is then remembered as the last destination.
pub open spec fn ace_move(cols: Seq<Seq<Card>>, lmd: int) -> (Seq<Seq<Card>>, int) {
    let s = last_ace(cols);
    let d = last_open(cols);
    (cols.update(s, cols[s].drop_last()).update(d, cols[d].push(cols[s].last())), d)
}

/// Up to `k` automatic ace relocations, stopping early once none is enabled.
pub open spec fn ace_moves(cols: Seq<Seq<Card>>, lmd: int, k: nat) -> (Seq<Seq<Card>>, int)
    decreases k,
{
    if k == 0 || !ace_move_enabled(cols, lmd) {
        (cols, lmd)
    } else {
        ace_moves(ace_move(cols, lmd).0, ace_move(cols, lmd).1, (k - 1) as nat)
    }
}

proof fn lemma_last_open_props(cols: Seq<Seq<Card>>)
    ensures
        -1 <= last_open(cols) < cols.len(),
        last_open(cols) >= 0 ==> cols[last_open(cols)].len() == 0,
        forall|i: int| last_open(cols) < i < cols.len() ==> (#[trigger] cols[i]).len() > 0,
    decreases cols.len(),
{
    if cols.len() > 0 && cols.last().len() != 0 {
        lemma_last_open_props(cols.drop_last());
        assert forall|i: int| last_open(cols) < i < cols.len() implies (
            #[trigger] cols[i]).len() > 0 by {
            if i < cols.len() - 1 {
                assert(cols.drop_last()[i] == cols[i]);
            }
        }
    }
}

proof fn lemma_last_open_is(cols: Seq<Seq<Card>>, v: int)
    requires
        -1 <= v < cols.len(),
        v >= 0 ==> cols[v].len() == 0,
        forall|i: int| v < i < cols.len() ==> (#[trigger] cols[i]).len() > 0,
    ensures
        last_open(cols) == v,
    decreases cols.len(),
{
    if cols.len() > 0 && cols.last().len() != 0 {
        assert forall|i: int| v < i < cols.drop_last().len() implies (
            #[trigger] cols.drop_last()[i]).len() > 0 by {
            assert(cols.drop_last()[i] == cols[i]);
        }
        lemma_last_open_is(cols.drop_last(), v);
    }
}

proof fn lemma_last_ace_props(cols: Seq<Seq<Card>>)
    ensures
        -1 <= last_ace(cols) < cols.len(),
        last_ace(cols) >= 0 ==> cols[last_ace(cols)].len() > 0
            && cols[last_ace(cols)].last().spec_is_ace(),
        forall|i: int| last_ace(cols) < i < cols.len()
            ==> !((#[trigger] cols[i]).len() > 0 && cols[i].last().spec_is_ace()),
    decreases cols.len(),
{
    if cols.len() > 0 && !(cols.last().len() > 0 && cols.last().last().spec_is_ace()) {
        lemma_last_ace_props(cols.drop_last());
        assert forall|i: int| last_ace(cols) < i < cols.len() implies !((
            #[trigger] cols[i]).len() > 0 && cols[i].last().spec_is_ace()) by {
            if i < cols.len() - 1 {
                assert(cols.drop_last()[i] == cols[i]);
            }
        }
    }
}

proof fn lemma_last_ace_is(cols: Seq<Seq<Card>>, v: int)
    requires
        -1 <= v < cols.len(),
        v >= 0 ==> cols[v].len() > 0 && cols[v].last().spec_is_ace(),
        forall|i: int| v < i < cols.len()
            ==> !((#[trigger] cols[i]).len() > 0 && cols[i].last().spec_is_ace()),
    ensures
        last_ace(cols) == v,
    decreases cols.len(),
{
    if cols.len() > 0 && !(cols.last().len() > 0 && cols.last().last().spec_is_ace()) {
        assert forall|i: int| v < i < cols.drop_last().len() implies !((
            #[trigger] cols.drop_last()[i]).len() > 0
            && cols.drop_last()[i].last().spec_is_ace()) by {
            assert(cols.drop_last()[i] == cols[i]);
        }
        lemma_last_ace_is(cols.drop_last(), v);
    }
}

proof fn lemma_num_empty_update(cols: Seq<Seq<Card>>, i: int, v: Seq<Card>)
    requires
        0 <= i < cols.len(),
    ensures
        num_empty(cols.update(i, v)) == num_empty(cols)
            - (if cols[i].len() == 0 { 1int } else { 0int })
            + (if v.len() == 0 { 1int } else { 0int }),
    decreases cols.len(),
{
    if i == cols.len() - 1 {
        assert(cols.update(i, v).drop_last() =~= cols.drop_last());
        assert(cols.update(i, v).last() == v);
    } else {
        lemma_num_empty_update(cols.drop_last(), i, v);
        assert(cols.update(i, v).drop_last() =~= cols.drop_last().update(i, v));
        assert(cols.update(i, v).last() == cols.last());
    }
}

/// What stays true across the automatic ace relocation: the remembered
/// destination, when set, holds an exposed ace, and when an open column lies
/// right of it, no exposed ace lies right of that open column.
pub open spec fn ace_loop_inv(cols: Seq<Seq<Card>>, lmd: int) -> bool {
    lmd >= 0 ==> {
        &&& 0 <= lmd < cols.len()
        &&& cols[lmd].len() > 0
        &&& cols[lmd].last().spec_is_ace()
        &&& (last_open(cols) > lmd ==> last_ace(cols) <= last_open(cols))
    }
}

/// The bounded stage of the relocation loop once the open-column count
/// stops falling.
pub open spec fn ace_phase(cols: Seq<Seq<Card>>, lmd: int) -> int {
    if !ace_move_enabled(cols, lmd) {
        0
    } else if lmd < 0 {
        3
    } else if last_open(cols) < lmd {
        2
    } else {
        1
    }
}

proof fn lemma_ace_move_decreases(cols: Seq<Seq<Card>>, lmd: int)
    requires
        ace_loop_inv(cols, lmd),
        ace_move_enabled(cols, lmd),
    ensures
        ace_move(cols, lmd).0.len() == cols.len(),
        ace_loop_inv(ace_move(cols, lmd).0, ace_move(cols, lmd).1),
        num_empty(ace_move(cols, lmd).0) <= num_empty(cols),
        num_empty(ace_move(cols, lmd).0) == num_empty(cols)
            ==> ace_phase(ace_move(cols, lmd).0, ace_move(cols, lmd).1)
                < ace_phase(cols, lmd),
{
    lemma_last_open_props(cols);
    lemma_last_ace_props(cols);
    let s = last_ace(cols);
    let d = last_open(cols);
    let post = ace_move(cols, lmd).0;
    assert(s != d);
    assert(post[d].len() == 1 && post[d].last() == cols[s].last());
    assert(post[s] == cols[s].drop_last());
    assert(forall|i: int| 0 <= i < cols.len() && i != s && i != d
        ==> #[trigger] post[i] == cols[i]);
    lemma_num_empty_update(cols, s, cols[s].drop_last());
    lemma_num_empty_update(cols.update(s, cols[s].drop_last()), d,
        cols[d].push(cols[s].last()));
    lemma_last_open_props(post);
    lemma_last_ace_props(post);
    if cols[s].len() > 1 {
        // The source keeps cards: one open column is filled, so their count
        // falls. Every open column of the new tableau lies left of `d`.
        assert(num_empty(post) < num_empty(cols));
        let lo2 = last_open(post);
        if lo2 > d {
            assert(post[lo2].len() == 0);
            if lo2 == s {
                assert(post[s].len() == cols[s].len() - 1);
            } else {
                assert(post[lo2] == cols[lo2]);
                assert(cols[lo2].len() > 0);
            }
            assert(false);
        }
        assert(lo2 != d);
    } else {
        // The source column itself opens up: the open-column count holds,
        // and the stage number falls.
        assert(num_empty(post) == num_empty(cols));
        if s > d {
            // The vacated source is now the rightmost open column.
            assert forall|i: int| s < i < post.len() implies (#[trigger] post[i]).len() > 0 by {
                assert(cols[i].len() > 0);
            }
            lemma_last_open_is(post, s);
            assert forall|i: int| s < i < post.len() implies !((#[trigger] post[i]).len() > 0
                && post[i].last().spec_is_ace()) by {
                assert(post[i] == cols[i]);
            }
            assert(last_ace(post) <= s) by {
                if last_ace(post) > s {
                    assert(post[last_ace(post)].len() > 0
                        && post[last_ace(post)].last().spec_is_ace());
                }
            }
            if lmd >= 0 {
                assert(s > lmd);
                assert(last_open(cols) < lmd || last_ace(cols) <= last_open(cols));
                if last_open(cols) >= lmd {
                    assert(d != lmd);
                    assert(d > lmd ==> s <= d);
                    assert(false);
                }
                assert(d < lmd);
                assert(ace_phase(cols, lmd) == 2);
            }
        } else {
            // The ace moved right onto `d`; everything right of `d` is a
            // full column without an exposed ace, so the loop is about to
            // stop or has its destination as the new rightmost open slot.
            assert(s < d);
            assert forall|i: int| d < i < post.len() implies !((#[trigger] post[i]).len() > 0
                && post[i].last().spec_is_ace()) by {
                assert(post[i] == cols[i]);
                assert(i > s);
            }
            lemma_last_ace_is(post, d);
            assert(!ace_move_enabled(post, d));
            if lmd >= 0 {
                assert(s > lmd);
                if last_open(cols) < lmd {
                    assert(d < lmd);
                    assert(false);
                }
                assert(d > lmd);
                assert(ace_phase(cols, lmd) == 1);
            }
            let lo2 = last_open(post);
            if lo2 > d {
                assert(post[lo2].len() > 0) by {
                    assert(lo2 != s && lo2 != d);
                    assert(cols[lo2].len() > 0);
                }
                assert(false);
            }
        }
    }
}

proof fn lemma_ace_moves_snoc(cols: Seq<Seq<Card>>, lmd: int, k: nat)
    requires
        ace_move_enabled(ace_moves(cols, lmd, k).0, ace_moves(cols, lmd, k).1),
    ensures
        ace_moves(cols, lmd, k + 1)
            == ace_move(ace_moves(cols, lmd, k).0, ace_moves(cols, lmd, k).1),
    decreases k,
{
    let stepped = ace_move(cols, lmd);
    if k == 0 {
        assert(ace_moves(cols, lmd, k) == (cols, lmd));
        assert(ace_moves(stepped.0, stepped.1, 0nat) == (stepped.0, stepped.1));
        assert(ace_moves(cols, lmd, 1nat) == ace_moves(stepped.0, stepped.1, 0nat));
    } else if ace_move_enabled(cols, lmd) {
        lemma_ace_moves_snoc(stepped.0, stepped.1, (k - 1) as nat);
        assert(ace_moves(cols, lmd, k) == ace_moves(stepped.0, stepped.1, (k - 1) as nat));
        assert(ace_moves(cols, lmd, k + 1) == ace_moves(stepped.0, stepped.1, k));
    } else {
        assert(ace_moves(cols, lmd, k) == (cols, lmd));
    }
}

/// Law: the win verdict fails as soon as one column is empty, holds more
/// than one card, or shows a non-ace; only four single aces win.
pub proof fn lemma_win_needs_single_aces(g: AcesUpGame, i: int)
    requires
        0 <= i < 4,
        g.columns@.len() == 4,
        col_views(g.columns)[i].len() != 1 || !col_views(g.columns)[i][0].spec_is_ace(),
    ensures
        !g.won(),
{
}

impl Game for AcesUpGame {
    /// Won exactly when each of the four columns holds one card and that card
    /// is an ace. An empty or overfull column simply means not won.
    open spec fn won(&self) -> bool {
        &&& self.columns@.len() == 4
        &&& forall|i: int| 0 <= i < 4 ==> (#[trigger] col_views(self.columns)[i]).len() == 1
            && col_views(self.columns)[i][0].spec_is_ace()
    }

    fn win(&self) -> (r: bool)
        ensures
            r == self.won(),
    {
        if self.columns.len() != 4 {
            return false;
        }
        let mut i: usize = 0;
        while i < 4
            invariant
                i <= 4,
                self.columns@.len() == 4,
                forall|j: int| 0 <= j < i ==> (#[trigger] col_views(self.columns)[j]).len() == 1
                    && col_views(self.columns)[j][0].spec_is_ace(),
            decreases 4 - i,
        {
            if self.columns[i].len() != 1 {
                proof {
                    assert(col_views(self.columns)[i as int] == self.columns@[i as int]@);
                }
                return false;
            }
            let c = self.columns[i][0];
            if !c.is_ace() {
                proof {
                    assert(col_views(self.columns)[i as int][0] == c);
                }
                return false;
            }
            i = i + 1;
        }
        true
    }
}

} // verus!
