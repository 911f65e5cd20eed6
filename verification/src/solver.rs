use crate::board::Board;
use crate::board::BoardModel;
use crate::board::StepModel;
use crate::board::dir_bit;
use crate::board::normalized;
use crate::board::possible_steps;
use crate::board::state_equiv;
use vstd::prelude::*;

verus! {

/// One recorded waypoint of a solution path: a board snapshot and, when a
/// move was applied to reach the next waypoint, that move's descriptor —
/// the pushed pawn's coordinates and the direction's exit-mask flag.
#[derive(Debug)]
pub struct HistoryEntry {
    pub board: Board,
    pub pawn_at_move_to: Option<(u8, u8, u8)>,
}

/// The mathematical value of a history entry.
pub struct EntryModel {
    pub board: BoardModel,
    pub mv: Option<(u8, u8, u8)>,
}

impl View for HistoryEntry {
    type V = EntryModel;

    open spec fn view(&self) -> EntryModel {
        EntryModel { board: self.board@, mv: self.pawn_at_move_to }
    }
}

/// The values of a sequence of history entries.
pub open spec fn entries_view(s: Seq<HistoryEntry>) -> Seq<EntryModel> {
    s.map_values(|e: HistoryEntry| e@)
}

/// A candidate search path: its move history, earliest first, and the board
/// reached by applying every move so far.
#[derive(Debug)]
pub struct Branch {
    pub history: Vec<HistoryEntry>,
    pub board: Board,
}

/// The mathematical value of a branch.
pub struct BranchModel {
    pub history: Seq<EntryModel>,
    pub board: BoardModel,
}

impl View for Branch {
    type V = BranchModel;

    open spec fn view(&self) -> BranchModel {
        BranchModel { history: entries_view(self.history@), board: self.board@ }
    }
}

/// The values of a sequence of branches.
pub open spec fn branch_views(s: Seq<Branch>) -> Seq<BranchModel> {
    s.map_values(|b: Branch| b@)
}

/// The values of a sequence of boards.
pub open spec fn board_views(s: Seq<Board>) -> Seq<BoardModel> {
    s.map_values(|b: Board| b@)
}

/// The reported result of a successful search: the winning branch's full
/// history and the board dimensions for replay.
#[derive(Debug)]
pub struct Solution {
    pub steps: Vec<HistoryEntry>,
    pub width: usize,
    pub height: usize,
}

/// The mathematical value of a solution.
pub struct SolutionModel {
    pub steps: Seq<EntryModel>,
    pub width: int,
    pub height: int,
}

impl View for Solution {
    type V = SolutionModel;

    open spec fn view(&self) -> SolutionModel {
        SolutionModel {
            steps: entries_view(self.steps@),
            width: self.width as int,
            height: self.height as int,
        }
    }
}

impl Clone for HistoryEntry {
    /// A clone carries the same board snapshot and move descriptor.
    fn clone(&self) -> (r: HistoryEntry)
        ensures
            r@ == self@,
    {
        HistoryEntry { board: self.board.clone(), pawn_at_move_to: self.pawn_at_move_to }
    }
}

impl Clone for Branch {
    /// A clone carries the same history and current board.
    fn clone(&self) -> (r: Branch)
        ensures
            r@ == self@,
    {
        let history = self.history.clone();
        proof {
            assert forall|i: int| 0 <= i < history@.len() implies (#[trigger] history@[i])@
                == self.history@[i]@ by {
                assert(vstd::pervasive::cloned::<HistoryEntry>(self.history@[i], history@[i]));
            }
            assert(entries_view(history@) =~= entries_view(self.history@));
        }
        Branch { history, board: self.board.clone() }
    }
}

/// Every board of a branch — its current board and each history snapshot —
/// is well formed.
pub open spec fn branch_wf(br: BranchModel) -> bool {
    &&& br.board.wf()
    &&& forall|k: int| 0 <= k < br.history.len() ==> (#[trigger] br.history[k]).board.wf()
}

/// Every branch of the set is well formed.
pub open spec fn branches_wf(bs: Seq<BranchModel>) -> bool {
    forall|k: int| 0 <= k < bs.len() ==> branch_wf(#[trigger] bs[k])
}

/// A board state already occurs, up to pawn-placement equivalence, in a list
/// of seen boards.
pub open spec fn seen_contains(seen: Seq<BoardModel>, m: BoardModel) -> bool {
    exists|k: int| 0 <= k < seen.len() && state_equiv(#[trigger] seen[k], m)
}

/// The board snapshots of a branch's history.
pub open spec fn branch_hist_boards(br: BranchModel) -> Seq<BoardModel> {
    br.history.map_values(|e: EntryModel| e.board)
}

/// The history boards of the first `i` branches, in branch order.
pub open spec fn hist_prefix(bs: Seq<BranchModel>, i: int) -> Seq<BoardModel>
    decreases i,
{
    if i <= 0 {
        Seq::empty()
    } else {
        hist_prefix(bs, i - 1) + branch_hist_boards(bs[i - 1])
    }
}

/// The current boards of the first `i` branches, in branch order.
pub open spec fn curr_prefix(bs: Seq<BranchModel>, i: int) -> Seq<BoardModel>
    decreases i,
{
    if i <= 0 {
        Seq::empty()
    } else {
        curr_prefix(bs, i - 1).push(bs[i - 1].board)
    }
}

/// The boards a generation deduplicates against before expanding: every
/// history board across all branches, then every branch's current board.
pub open spec fn gen_seen(bs: Seq<BranchModel>) -> Seq<BoardModel> {
    hist_prefix(bs, bs.len() as int) + curr_prefix(bs, bs.len() as int)
}

/// The wire descriptor of a generated move: the pushed pawn's coordinates
/// and the direction's exit-mask flag.
pub open spec fn move_descriptor(s: StepModel) -> (u8, u8, u8) {
    (s.x as u8, s.y as u8, dir_bit(s.dir))
}

/// One generation's expansion, from branch `bi` and its step `si` onward:
/// each branch forks once per generated move whose board is not yet seen;
/// a newly admitted board becomes visible to all later forks of the same
/// generation. The first solved fork ends the generation with a solution
/// whose history gains the solved board as a final waypoint.
pub open spec fn expand(
    bs: Seq<BranchModel>,
    bi: int,
    si: int,
    seen: Seq<BoardModel>,
    acc: Seq<BranchModel>,
) -> (Seq<BranchModel>, Option<BranchModel>)
    decreases bs.len() - bi, possible_steps(bs[bi].board).len() - si,
{
    if bi < 0 || bi >= bs.len() {
        (acc, None)
    } else {
        let steps = possible_steps(bs[bi].board);
        if si < 0 || si >= steps.len() {
            expand(bs, bi + 1, 0, seen, acc)
        } else {
            let s = steps[si];
            if seen_contains(seen, s.board) {
                expand(bs, bi, si + 1, seen, acc)
            } else {
                let nh = bs[bi].history.push(
                    EntryModel { board: bs[bi].board, mv: Some(move_descriptor(s)) },
                );
                if s.board.solved() {
                    (
                        acc,
                        Some(
                            BranchModel {
                                history: nh.push(EntryModel { board: s.board, mv: None }),
                                board: s.board,
                            },
                        ),
                    )
                } else {
                    expand(
                        bs,
                        bi,
                        si + 1,
                        seen.push(s.board),
                        acc.push(BranchModel { history: nh, board: s.board }),
                    )
                }
            }
        }
    }
}

/// The whole bounded search: expand generation by generation until a
/// solution appears or the budget runs out. A generation that produces no
/// branch still consumes budget.
pub open spec fn run_solver(bs: Seq<BranchModel>, remaining: nat) -> Option<BranchModel>
    decreases remaining,
{
    if remaining == 0 {
        None
    } else {
        let r = expand(bs, 0, 0, gen_seen(bs), Seq::empty());
        match r.1 {
            Some(sol) => Some(sol),
            None => run_solver(r.0, (remaining - 1) as nat),
        }
    }
}

/// The single seed branch of a search: one waypoint holding the initial
/// board and no move.
pub open spec fn initial_branch(m: BoardModel) -> BranchModel {
    BranchModel { history: seq![EntryModel { board: m, mv: None }], board: m }
}

/// The outcome of a full solve: normalize the board, seed one branch, and
/// run the bounded search.
pub open spec fn solver_outcome(m: BoardModel, budget: nat) -> Option<BranchModel> {
    run_solver(seq![initial_branch(normalized(m))], budget)
}

/// The reported solution of a full solve with the given budget.
pub open spec fn solution_of(m: BoardModel, budget: nat) -> Option<SolutionModel> {
    match solver_outcome(m, budget) {
        Some(br) => Some(
            SolutionModel { steps: br.history, width: m.width, height: m.height },
        ),
        None => None,
    }
}

/// The value of an optional branch.
pub open spec fn opt_branch_view(o: Option<Branch>) -> Option<BranchModel> {
    match o {
        Some(b) => Some(b@),
        None => None,
    }
}

/// The value of an optional solution.
pub open spec fn opt_solution_view(o: Option<Solution>) -> Option<SolutionModel> {
    match o {
        Some(s) => Some(s@),
        None => None,
    }
}

/// Whether a board state, up to pawn-placement equivalence, already occurs
/// in the list of seen boards.
fn contains_state(seen: &Vec<Board>, b: &Board) -> (r: bool)
    requires
        b@.wf(),
        forall|k: int| 0 <= k < seen@.len() ==> (#[trigger] seen@[k])@.wf(),
    ensures
        r == seen_contains(board_views(seen@), b@),
{
    let mut i: usize = 0;
    while i < seen.len()
        invariant
            b@.wf(),
            forall|k: int| 0 <= k < seen@.len() ==> (#[trigger] seen@[k])@.wf(),
            i <= seen@.len(),
            forall|k: int| 0 <= k < i ==> !state_equiv(board_views(seen@)[k], b@),
        decreases seen@.len() - i,
    {
        if seen[i].same_state(b) {
            proof {
                assert(state_equiv(board_views(seen@)[i as int], b@));
            }
            return true;
        }
        i += 1;
    }
    false
}

/// The in-flight state of a bounded breadth-first search: the branch set of
/// the current generation, the solution once one is found, and the number of
/// generations that may still be expanded.
#[derive(Debug)]
pub struct Solver {
    pub branches: Vec<Branch>,
    pub solution: Option<Branch>,
    pub remaining_tries: usize,
}

impl Solver {
    /// A fresh search over the given board: one seed branch whose single
    /// waypoint is the board itself, and a budget of `max_tries` generations.
    pub fn new(board: Board, max_tries: usize) -> (r: Solver)
        ensures
            branch_views(r.branches@) == seq![initial_branch(board@)],
            r.solution is None,
            r.remaining_tries == max_tries,
    {
        let mut history: Vec<HistoryEntry> = Vec::new();
        history.push(HistoryEntry { board: board.clone(), pawn_at_move_to: None });
        let branch = Branch { history, board };
        let mut branches: Vec<Branch> = Vec::new();
        branches.push(branch);
        proof {
            assert(entries_view(branches@[0].history@) =~= seq![
                EntryModel { board: branches@[0].history@[0].board@, mv: None },
            ]);
            assert(branch_views(branches@) =~= seq![initial_branch(branches@[0].board@)]);
        }
        Solver { branches, solution: None, remaining_tries: max_tries }
    }

    /// Expands every current branch by one generation, exactly as `expand`
    /// describes, spending one unit of budget; on a generation that finds a
    /// solution the budget drops to zero and the branch set is left as it
    /// was. With no budget left, nothing happens.
    fn step(&mut self)
        requires
            old(self).solution is None,
            branches_wf(branch_views(old(self).branches@)),
        ensures
            branches_wf(branch_views(final(self).branches@)),
            old(self).remaining_tries == 0 ==> *final(self) == *old(self),
            old(self).remaining_tries > 0 ==> {
                let bs = branch_views(old(self).branches@);
                let ex = expand(bs, 0, 0, gen_seen(bs), Seq::empty());
                match ex.1 {
                    Some(sol) => {
                        &&& opt_branch_view(final(self).solution) == Some(sol)
                        &&& final(self).remaining_tries == 0
                        &&& branch_views(final(self).branches@) == bs
                        &&& branch_wf(sol)
                    },
                    None => {
                        &&& final(self).solution is None
                        &&& branch_views(final(self).branches@) == ex.0
                        &&& final(self).remaining_tries == old(self).remaining_tries - 1
                    },
                }
            },
    {
        if self.remaining_tries == 0 {
            return ;
        }
        self.remaining_tries = self.remaining_tries - 1;
        let ghost bs0 = branch_views(old(self).branches@);

        // Gather every history board of every branch, then every branch's
        // current board, as the generation's initial deduplication list.
        let mut seen: Vec<Board> = Vec::new();
        let mut i: usize = 0;
        while i < self.branches.len()
            invariant
                bs0 == branch_views(self.branches@),
                branches_wf(bs0),
                i <= self.branches@.len(),
                board_views(seen@) == hist_prefix(bs0, i as int),
                forall|k: int| 0 <= k < seen@.len() ==> (#[trigger] seen@[k])@.wf(),
            decreases self.branches@.len() - i,
        {
            let mut j: usize = 0;
            let ghost hb = branch_hist_boards(bs0[i as int]);
            while j < self.branches[i].history.len()
                invariant
                    bs0 == branch_views(self.branches@),
                    branches_wf(bs0),
                    i < self.branches@.len(),
                    hb == branch_hist_boards(bs0[i as int]),
                    j <= self.branches@[i as int].history@.len(),
                    hb.len() == self.branches@[i as int].history@.len(),
                    board_views(seen@) == hist_prefix(bs0, i as int) + hb.take(j as int),
                    forall|k: int| 0 <= k < seen@.len() ==> (#[trigger] seen@[k])@.wf(),
                decreases self.branches@[i as int].history@.len() - j,
            {
                let entry_board = self.branches[i].history[j].board.clone();
                proof {
                    assert(hb[j as int] == bs0[i as int].history[j as int].board);
                    assert(bs0[i as int].history[j as int] == self.branches@[i as int].history@[j as int]@);
                    assert(entry_board@ == hb[j as int]);
                    assert(hb.take(j as int + 1) =~= hb.take(j as int).push(hb[j as int]));
                }
                let ghost sv = board_views(seen@);
                seen.push(entry_board);
                proof {
                    assert(board_views(seen@) =~= sv.push(hb[j as int]));
                    assert(sv.push(hb[j as int]) =~= hist_prefix(bs0, i as int) + hb.take(
                        j as int + 1,
                    ));
                }
                j += 1;
            }
            proof {
                assert(hb.take(hb.len() as int) =~= hb);
                assert(hist_prefix(bs0, i as int + 1) == hist_prefix(bs0, i as int)
                    + branch_hist_boards(bs0[i as int]));
            }
            i += 1;
        }
        let ghost hist_all = hist_prefix(bs0, bs0.len() as int);
        let mut i2: usize = 0;
        while i2 < self.branches.len()
            invariant
                bs0 == branch_views(self.branches@),
                branches_wf(bs0),
                i2 <= self.branches@.len(),
                board_views(seen@) == hist_all + curr_prefix(bs0, i2 as int),
                hist_all == hist_prefix(bs0, bs0.len() as int),
                forall|k: int| 0 <= k < seen@.len() ==> (#[trigger] seen@[k])@.wf(),
            decreases self.branches@.len() - i2,
        {
            let cur_board = self.branches[i2].board.clone();
            proof {
                assert(cur_board@ == bs0[i2 as int].board);
            }
            let ghost sv2 = board_views(seen@);
            seen.push(cur_board);
            proof {
                assert(board_views(seen@) =~= sv2.push(bs0[i2 as int].board));
                assert(curr_prefix(bs0, i2 as int + 1) == curr_prefix(bs0, i2 as int).push(
                    bs0[i2 as int].board,
                ));
                assert(sv2.push(bs0[i2 as int].board) =~= hist_all + curr_prefix(
                    bs0,
                    i2 as int + 1,
                ));
            }
            i2 += 1;
        }
        proof {
            assert(board_views(seen@) == gen_seen(bs0));
        }

        // Expand each branch by every unseen generated move, admitting each
        // new board into the deduplication list at once.
        let mut new_branches: Vec<Branch> = Vec::new();
        proof {
            assert(branch_views(new_branches@) =~= Seq::<BranchModel>::empty());
        }
        let mut bi: usize = 0;
        while bi < self.branches.len()
            invariant
                old(self).remaining_tries > 0,
                self.remaining_tries == old(self).remaining_tries - 1,
                self.solution is None,
                bs0 == branch_views(self.branches@),
                self.branches@ == old(self).branches@,
                branches_wf(bs0),
                branches_wf(branch_views(new_branches@)),
                bi <= self.branches@.len(),
                forall|k: int| 0 <= k < seen@.len() ==> (#[trigger] seen@[k])@.wf(),
                expand(bs0, 0, 0, gen_seen(bs0), Seq::empty()) == expand(
                    bs0,
                    bi as int,
                    0,
                    board_views(seen@),
                    branch_views(new_branches@),
                ),
            decreases self.branches@.len() - bi,
        {
            let steps = self.branches[bi].board.get_possible_steps();
            let ghost stepsm = possible_steps(bs0[bi as int].board);
            proof {
                assert(self.branches@[bi as int]@ == bs0[bi as int]);
                crate::board::lemma_steps_from_wf(bs0[bi as int].board, 0, 0);
            }
            let mut si: usize = 0;
            while si < steps.len()
                invariant
                    old(self).remaining_tries > 0,
                    self.remaining_tries == old(self).remaining_tries - 1,
                    self.solution is None,
                    bs0 == branch_views(self.branches@),
                    self.branches@ == old(self).branches@,
                    branches_wf(bs0),
                    branches_wf(branch_views(new_branches@)),
                    bi < self.branches@.len(),
                    si <= steps@.len(),
                    stepsm == possible_steps(bs0[bi as int].board),
                    crate::board::steps_views(steps@) == stepsm,
                    forall|k: int| 0 <= k < seen@.len() ==> (#[trigger] seen@[k])@.wf(),
                    forall|k: int|
                        0 <= k < stepsm.len() ==> {
                            let s = #[trigger] stepsm[k];
                            s.board.wf() && s.board.width == bs0[bi as int].board.width
                                && s.board.height == bs0[bi as int].board.height
                        },
                    expand(bs0, 0, 0, gen_seen(bs0), Seq::empty()) == expand(
                        bs0,
                        bi as int,
                        si as int,
                        board_views(seen@),
                        branch_views(new_branches@),
                    ),
                decreases steps@.len() - si,
            {
                let ghost seenv = board_views(seen@);
                let ghost accv = branch_views(new_branches@);
                let ghost s = stepsm[si as int];
                proof {
                    assert(steps@[si as int]@ == stepsm[si as int]);
                }
                let dup = contains_state(&seen, &steps[si].board);
                if !dup {
                    let mut new_history = self.branches[bi].history.clone();
                    proof {
                        assert forall|k: int| 0 <= k < new_history@.len() implies (
                        #[trigger] new_history@[k])@ == self.branches@[bi as int].history@[k]@ by {
                            assert(vstd::pervasive::cloned::<HistoryEntry>(
                                self.branches@[bi as int].history@[k],
                                new_history@[k],
                            ));
                        }
                        assert(entries_view(new_history@) =~= bs0[bi as int].history);
                    }
                    let pre_board = self.branches[bi].board.clone();
                    let px = #[verifier::truncate] (steps[si].pawn_at.0 as u8);
                    let py = #[verifier::truncate] (steps[si].pawn_at.1 as u8);
                    let pd = steps[si].direction.bit();
                    new_history.push(
                        HistoryEntry { board: pre_board, pawn_at_move_to: Some((px, py, pd)) },
                    );
                    proof {
                        assert(entries_view(new_history@) =~= bs0[bi as int].history.push(
                            EntryModel { board: bs0[bi as int].board, mv: Some(move_descriptor(s)) },
                        ));
                    }
                    let new_board = steps[si].board.clone();
                    let solved = new_board.is_solved();
                    let mut new_branch = Branch { history: new_history, board: new_board };
                    let seen_entry = steps[si].board.clone();
                    seen.push(seen_entry);
                    if solved {
                        let final_board = steps[si].board.clone();
                        new_branch.history.push(
                            HistoryEntry { board: final_board, pawn_at_move_to: None },
                        );
                        proof {
                            let nh = bs0[bi as int].history.push(
                                EntryModel {
                                    board: bs0[bi as int].board,
                                    mv: Some(move_descriptor(s)),
                                },
                            );
                            assert(entries_view(new_branch.history@) =~= nh.push(
                                EntryModel { board: s.board, mv: None },
                            ));
                            assert(expand(bs0, bi as int, si as int, seenv, accv) == (
                                accv,
                                Some(new_branch@),
                            ));
                        }
                        self.solution = Some(new_branch);
                        self.remaining_tries = 0;
                        return ;
                    }
                    new_branches.push(new_branch);
                    proof {
                        assert(board_views(seen@) =~= seenv.push(s.board));
                        assert(branch_views(new_branches@) =~= accv.push(
                            BranchModel {
                                history: bs0[bi as int].history.push(
                                    EntryModel {
                                        board: bs0[bi as int].board,
                                        mv: Some(move_descriptor(s)),
                                    },
                                ),
                                board: s.board,
                            },
                        ));
                        assert(expand(bs0, bi as int, si as int, seenv, accv) == expand(
                            bs0,
                            bi as int,
                            si as int + 1,
                            board_views(seen@),
                            branch_views(new_branches@),
                        ));
                        assert(branch_wf(new_branches@[new_branches@.len() - 1]@));
                    }
                } else {
                    proof {
                        assert(expand(bs0, bi as int, si as int, seenv, accv) == expand(
                            bs0,
                            bi as int,
                            si as int + 1,
                            seenv,
                            accv,
                        ));
                    }
                }
                si += 1;
            }
            proof {
                assert(expand(bs0, bi as int, si as int, board_views(seen@), branch_views(
                    new_branches@,
                )) == expand(bs0, bi as int + 1, 0, board_views(seen@), branch_views(
                    new_branches@,
                )));
            }
            bi += 1;
        }
        proof {
            assert(expand(bs0, bi as int, 0, board_views(seen@), branch_views(new_branches@)) == (
                branch_views(new_branches@),
                None::<BranchModel>,
            ));
        }
        self.branches = new_branches;
    }

    /// Runs the search to completion: expands generations while no solution
    /// has been found and budget remains, and reports the winning branch, or
    /// nothing when the budget is exhausted.
    pub fn solve(&mut self) -> (r: Option<Branch>)
        requires
            old(self).solution is None,
            branches_wf(branch_views(old(self).branches@)),
        ensures
            opt_branch_view(r) == run_solver(
                branch_views(old(self).branches@),
                old(self).remaining_tries as nat,
            ),
    {
        let ghost bs_init = branch_views(old(self).branches@);
        let ghost rem_init = old(self).remaining_tries as nat;
        while self.solution.is_none() && self.remaining_tries > 0
            invariant
                branches_wf(branch_views(self.branches@)),
                run_solver(bs_init, rem_init) == match opt_branch_view(self.solution) {
                    Some(bm) => Some(bm),
                    None => run_solver(
                        branch_views(self.branches@),
                        self.remaining_tries as nat,
                    ),
                },
            decreases self.remaining_tries,
        {
            let ghost bs_cur = branch_views(self.branches@);
            let ghost rem_cur = self.remaining_tries as nat;
            self.step();
            proof {
                let ex = expand(bs_cur, 0, 0, gen_seen(bs_cur), Seq::empty());
                assert(run_solver(bs_cur, rem_cur) == match ex.1 {
                    Some(sol) => Some(sol),
                    None => run_solver(ex.0, (rem_cur - 1) as nat),
                });
            }
        }
        match &self.solution {
            Some(b) => {
                let r = b.clone();
                Some(r)
            },
            None => {
                proof {
                    assert(run_solver(branch_views(self.branches@), 0) is None);
                }
                None
            },
        }
    }
}

/// Normalizes the given board and searches for a shortest push sequence that
/// puts a Fox on every goal tile, within the default budget of 32
/// generations. Reports the winning history, or nothing when the budget is
/// exhausted first.
pub fn start_solver(board: Board) -> (r: Option<Solution>)
    requires
        board@.wf(),
    ensures
        opt_solution_view(r) == solution_of(board@, 32),
{
    let ghost m0 = board@;
    let mut board = board;
    board.fulfill_board_with_walls();
    let width = board.width;
    let height = board.height;
    let mut solver = Solver::new(board, 32);
    proof {
        assert(branch_views(solver.branches@) == seq![initial_branch(normalized(m0))]);
        assert(branch_wf(initial_branch(normalized(m0))));
        assert(branches_wf(branch_views(solver.branches@)));
    }
    let the_branch = match solver.solve() {
        Some(branch) => branch,
        None => {
            return None;
        },
    };
    Some(Solution { steps: the_branch.history, width, height })
}

/// Determinism: searches of the same board with the same budget report the
/// same outcome — the result is a function of the initial board and budget
/// alone.
pub proof fn lemma_solver_deterministic(
    m: BoardModel,
    budget: nat,
    r1: Option<SolutionModel>,
    r2: Option<SolutionModel>,
)
    requires
        r1 == solution_of(m, budget),
        r2 == solution_of(m, budget),
    ensures
        r1 == r2,
{
}

/// A zero generation budget never yields a solution: no expansion is even
/// attempted.
pub proof fn lemma_budget_zero(bs: Seq<BranchModel>)
    ensures
        run_solver(bs, 0) is None,
{
}

/// Every branch's history holds at most `n` waypoints.
pub open spec fn hist_le(bs: Seq<BranchModel>, n: int) -> bool {
    forall|k: int| 0 <= k < bs.len() ==> (#[trigger] bs[k]).history.len() <= n
}

/// One generation grows each surviving history by exactly one waypoint, and
/// a solution by two.
proof fn lemma_expand_hist_len(
    bs: Seq<BranchModel>,
    bi: int,
    si: int,
    seen: Seq<BoardModel>,
    acc: Seq<BranchModel>,
    n: int,
)
    requires
        hist_le(bs, n),
        hist_le(acc, n + 1),
    ensures
        hist_le(expand(bs, bi, si, seen, acc).0, n + 1),
        expand(bs, bi, si, seen, acc).1 matches Some(sol) ==> sol.history.len() <= n + 2,
    decreases bs.len() - bi, possible_steps(bs[bi].board).len() - si,
{
    if bi < 0 || bi >= bs.len() {
    } else {
        let steps = possible_steps(bs[bi].board);
        if si < 0 || si >= steps.len() {
            lemma_expand_hist_len(bs, bi + 1, 0, seen, acc, n);
        } else {
            let s = steps[si];
            if seen_contains(seen, s.board) {
                lemma_expand_hist_len(bs, bi, si + 1, seen, acc, n);
            } else {
                let nh = bs[bi].history.push(
                    EntryModel { board: bs[bi].board, mv: Some(move_descriptor(s)) },
                );
                if s.board.solved() {
                } else {
                    let nb = BranchModel { history: nh, board: s.board };
                    assert(hist_le(acc.push(nb), n + 1));
                    lemma_expand_hist_len(bs, bi, si + 1, seen.push(s.board), acc.push(nb), n);
                }
            }
        }
    }
}

/// A search from branches of at most `n` waypoints and `rem` generations of
/// budget reports a history of at most `n + rem + 1` waypoints.
proof fn lemma_run_hist_len(bs: Seq<BranchModel>, rem: nat, n: int)
    requires
        hist_le(bs, n),
    ensures
        run_solver(bs, rem) matches Some(sol) ==> sol.history.len() <= n + rem + 1,
    decreases rem,
{
    if rem > 0 {
        let r = expand(bs, 0, 0, gen_seen(bs), Seq::empty());
        assert(hist_le(Seq::<BranchModel>::empty(), n + 1));
        lemma_expand_hist_len(bs, 0, 0, gen_seen(bs), Seq::empty(), n);
        if r.1 is None {
            lemma_run_hist_len(r.0, (rem - 1) as nat, n + 1);
        }
    }
}

/// The budget is respected: a search of `budget` generations performs at
/// most `budget` expansions, so any reported solution holds at most
/// `budget` moves — at most `budget + 2` waypoints.
pub proof fn lemma_budget_bounds_solution(m: BoardModel, budget: nat)
    ensures
        solution_of(m, budget) matches Some(sol) ==> sol.steps.len() <= budget + 2,
{
    let seed = seq![initial_branch(normalized(m))];
    assert(seed[0].history.len() == 1);
    assert(hist_le(seed, 1));
    lemma_run_hist_len(seed, budget, 1);
}

} // verus!
