//! A maze solver by recursive descent.
//!
//! The maze is a grid of characters: `#` is a wall, `*` is the goal, and
//! anything else can be walked on.  `walk` explores the four neighbours of
//! the current cell depth first, keeping a grid of cells already on the
//! trail, and records the successful trail in `path`.

use vstd::prelude::*;

verus! {

/// The character of the maze at `p`, with `#` standing in for anything
/// outside the row.
pub open spec fn cell(maze: Seq<String>, p: (isize, isize)) -> char {
    if 0 <= p.0 < maze.len() && 0 <= p.1 && p.1 < maze[p.0 as int]@.len() {
        maze[p.0 as int]@[p.1 as int]
    } else {
        '#'
    }
}

/// Whether `p` lies inside the grid, whose width is that of the first row.
pub open spec fn in_bounds(maze: Seq<String>, p: (isize, isize)) -> bool {
    &&& 0 <= p.0 < maze.len()
    &&& 0 <= p.1 < maze[0]@.len()
}

/// The two positions differ by one step in exactly one direction.
pub open spec fn adjacent(a: (isize, isize), b: (isize, isize)) -> bool {
    ||| (a.0 == b.0 && (a.1 == b.1 + 1 || a.1 + 1 == b.1))
    ||| (a.1 == b.1 && (a.0 == b.0 + 1 || a.0 + 1 == b.0))
}

/// The boolean grid as a sequence of rows.
pub open spec fn grid_view(seen: Seq<Vec<bool>>) -> Seq<Seq<bool>> {
    seen.map_values(|row: Vec<bool>| row@)
}

/// The grid has one row per maze row, each as wide as the first maze row.
pub open spec fn grid_matches(seen: Seq<Seq<bool>>, maze: Seq<String>) -> bool {
    &&& seen.len() == maze.len()
    &&& forall|i: int| 0 <= i < seen.len() ==> (#[trigger] seen[i]).len() == maze[0]@.len()
}

/// How many cells of one row are not yet on the trail.
pub open spec fn row_unseen(row: Seq<bool>) -> int
    decreases row.len(),
{
    if row.len() == 0 {
        0
    } else {
        (if row[0] {
            0int
        } else {
            1int
        }) + row_unseen(row.skip(1))
    }
}

/// How many cells of the grid are not yet on the trail.
pub open spec fn grid_unseen(g: Seq<Seq<bool>>) -> int
    decreases g.len(),
{
    if g.len() == 0 {
        0
    } else {
        row_unseen(g[0]) + grid_unseen(g.skip(1))
    }
}

proof fn lemma_row_unseen_nonneg(row: Seq<bool>)
    ensures
        row_unseen(row) >= 0,
    decreases row.len(),
{
    if row.len() > 0 {
        lemma_row_unseen_nonneg(row.skip(1));
    }
}

proof fn lemma_grid_unseen_nonneg(g: Seq<Seq<bool>>)
    ensures
        grid_unseen(g) >= 0,
    decreases g.len(),
{
    if g.len() > 0 {
        lemma_row_unseen_nonneg(g[0]);
        lemma_grid_unseen_nonneg(g.skip(1));
    }
}

/// Marking one cell changes the count of a row by exactly that cell.
proof fn lemma_row_unseen_update(row: Seq<bool>, c: int, b: bool)
    requires
        0 <= c < row.len(),
    ensures
        row_unseen(row.update(c, b)) == row_unseen(row) - (if row[c] {
            0int
        } else {
            1int
        }) + (if b {
            0int
        } else {
            1int
        }),
    decreases row.len(),
{
    if c == 0 {
        assert(row.update(c, b).skip(1) =~= row.skip(1));
    } else {
        assert(row.update(c, b).skip(1) =~= row.skip(1).update(c - 1, b));
        lemma_row_unseen_update(row.skip(1), c - 1, b);
    }
}

/// Replacing one row changes the count of the grid by that row's difference.
proof fn lemma_grid_unseen_update(g: Seq<Seq<bool>>, r: int, row2: Seq<bool>)
    requires
        0 <= r < g.len(),
    ensures
        grid_unseen(g.update(r, row2)) == grid_unseen(g) - row_unseen(g[r]) + row_unseen(row2),
    decreases g.len(),
{
    if r == 0 {
        assert(g.update(r, row2).skip(1) =~= g.skip(1));
    } else {
        assert(g.update(r, row2).skip(1) =~= g.skip(1).update(r - 1, row2));
        lemma_grid_unseen_update(g.skip(1), r - 1, row2);
    }
}

/// What a successful walk guarantees: `path` grew by a trail that starts at
/// the walker's position, stays inside the grid, moves one step at a time,
/// never crosses a wall, never touches a cell that was already on the trail
/// (`grid` is the trail marks at the start of the call), never repeats a
/// cell, and ends on the goal character.
pub open spec fn found_trail(
    maze: Seq<String>,
    grid: Seq<Seq<bool>>,
    pre: Seq<(isize, isize)>,
    post: Seq<(isize, isize)>,
    curr: (isize, isize),
) -> bool {
    &&& post.len() > pre.len()
    &&& pre.is_prefix_of(post)
    &&& post[pre.len() as int] == curr
    &&& cell(maze, post.last()) == '*'
    &&& forall|i: int|
        pre.len() <= i < post.len() - 1 ==> adjacent(#[trigger] post[i], post[i + 1])
    &&& forall|i: int| pre.len() <= i < post.len() ==> in_bounds(maze, #[trigger] post[i])
    &&& forall|i: int| pre.len() <= i < post.len() ==> cell(maze, #[trigger] post[i]) != '#'
    &&& forall|i: int|
        pre.len() <= i < post.len() ==> !grid[(#[trigger] post[i]).0 as int][post[i].1 as int]
    &&& forall|a: int, b: int| pre.len() <= a < b < post.len() ==> post[a] != post[b]
}

/// Tries to extend the trail from `curr` to the goal, one grid step at a
/// time.  On success the freshly walked trail stays in `path` (and the cells
/// on it stay marked in `seen`); on failure both are exactly as they were.
pub fn walk(
    maze: &Vec<String>,
    curr: (isize, isize),
    seen: &mut Vec<Vec<bool>>,
    path: &mut Vec<(isize, isize)>,
) -> (r: bool)
    requires
        maze@.len() >= 1,
        maze@.len() <= isize::MAX,
        maze@[0]@.len() <= isize::MAX,
        grid_matches(grid_view(old(seen)@), maze@),
    ensures
        grid_matches(grid_view(final(seen)@), maze@),
        r ==> found_trail(maze@, grid_view(old(seen)@), old(path)@, final(path)@, curr),
        !r ==> grid_view(final(seen)@) == grid_view(old(seen)@) && final(path)@ == old(path)@,
    decreases grid_unseen(grid_view(old(seen)@)), 0int,
{
    let rows = maze.len();
    if curr.0 < 0 || curr.0 >= rows as isize {
        return false;
    }
    let width = maze[0].as_str().unicode_len();
    if curr.1 < 0 || curr.1 >= width as isize {
        return false;
    }
    let ri = curr.0 as usize;
    let ci = curr.1 as usize;
    let row_len = maze[ri].as_str().unicode_len();
    let current_pos = if ci < row_len {
        maze[ri].as_str().get_char(ci)
    } else {
        '#'
    };
    proof {
        assert(current_pos == cell(maze@, curr));
        assert(grid_view(seen@).len() == seen@.len());
        assert(grid_view(seen@)[ri as int] == seen@[ri as int]@);
    }
    if current_pos == '#' || seen[ri][ci] {
        return false;
    }
    if current_pos == '*' {
        path.push(curr);
        proof {
            assert(old(path)@.is_prefix_of(path@));
            assert(!grid_view(seen@)[curr.0 as int][curr.1 as int]);
        }
        return true;
    }
    let ghost entry_grid = grid_view(seen@);
    {
        let row = &mut seen[ri];
        row[ci] = true;
    }
    path.push(curr);
    let ghost marked_grid = grid_view(seen@);
    proof {
        assert(marked_grid =~= entry_grid.update(
            ri as int,
            entry_grid[ri as int].update(ci as int, true),
        ));
        lemma_grid_unseen_update(
            entry_grid,
            ri as int,
            entry_grid[ri as int].update(ci as int, true),
        );
        lemma_row_unseen_update(entry_grid[ri as int], ci as int, true);
        lemma_grid_unseen_nonneg(marked_grid);
        assert(grid_unseen(marked_grid) == grid_unseen(entry_grid) - 1);
    }
    let ghost pushed = path@;
    proof {
        assert(pushed.drop_last() =~= old(path)@);
    }

    if walk_step(maze, curr, 0, 1, seen, path, Ghost(entry_grid), Ghost(marked_grid), Ghost(pushed)) {
        return true;
    }
    if walk_step(maze, curr, 0, -1, seen, path, Ghost(entry_grid), Ghost(marked_grid), Ghost(pushed)) {
        return true;
    }
    if walk_step(maze, curr, -1, 0, seen, path, Ghost(entry_grid), Ghost(marked_grid), Ghost(pushed)) {
        return true;
    }
    if walk_step(maze, curr, 1, 0, seen, path, Ghost(entry_grid), Ghost(marked_grid), Ghost(pushed)) {
        return true;
    }

    path.pop();
    proof {
        assert(path@ =~= old(path)@);
        assert(grid_view(seen@) == marked_grid);
        assert(grid_view(seen@).len() == seen@.len());
        assert(grid_view(seen@)[ri as int] == seen@[ri as int]@);
    }
    {
        let row = &mut seen[ri];
        row[ci] = false;
    }
    proof {
        assert(seen@[ri as int]@ =~= entry_grid[ri as int]);
        assert forall|j: int| 0 <= j < entry_grid.len() implies grid_view(seen@)[j]
            == entry_grid[j] by {
            assert(grid_view(seen@)[j] == seen@[j]@);
            if j != ri {
                assert(marked_grid[j] == entry_grid[j]);
            }
        }
        assert(grid_view(seen@) =~= entry_grid);
    }
    false
}

/// One exploration step: tries the neighbour of `curr` one step along
/// `(dr, dc)`, leaving the trail untouched when that direction fails.
fn walk_step(
    maze: &Vec<String>,
    curr: (isize, isize),
    dr: isize,
    dc: isize,
    seen: &mut Vec<Vec<bool>>,
    path: &mut Vec<(isize, isize)>,
    Ghost(entry_grid): Ghost<Seq<Seq<bool>>>,
    Ghost(marked_grid): Ghost<Seq<Seq<bool>>>,
    Ghost(pushed): Ghost<Seq<(isize, isize)>>,
) -> (r: bool)
    requires
        maze@.len() >= 1,
        maze@.len() <= isize::MAX,
        maze@[0]@.len() <= isize::MAX,
        grid_matches(grid_view(old(seen)@), maze@),
        grid_matches(entry_grid, maze@),
        grid_view(old(seen)@) == marked_grid,
        marked_grid == entry_grid.update(
            curr.0 as int,
            entry_grid[curr.0 as int].update(curr.1 as int, true),
        ),
        !entry_grid[curr.0 as int][curr.1 as int],
        cell(maze@, curr) != '#',
        old(path)@ == pushed,
        pushed.len() >= 1,
        pushed.last() == curr,
        in_bounds(maze@, curr),
        (dr == 0 && (dc == 1 || dc == -1)) || (dc == 0 && (dr == 1 || dr == -1)),
    ensures
        grid_matches(grid_view(final(seen)@), maze@),
        r ==> found_trail(maze@, entry_grid, pushed.drop_last(), final(path)@, pushed.last()),
        !r ==> grid_view(final(seen)@) == marked_grid && final(path)@ == pushed,
    decreases grid_unseen(marked_grid), 1int,
{
    let next = (curr.0 + dr, curr.1 + dc);
    let r = walk(maze, next, seen, path);
    proof {
        if r {
            let post = final(path)@;
            assert(found_trail(maze@, marked_grid, pushed, post, next));
            let pl = pushed.len() as int;
            assert forall|i: int| pl <= i < post.len() implies post[i] != curr && !entry_grid[(
            #[trigger] post[i]).0 as int][post[i].1 as int] by {
                let rr = post[i].0 as int;
                let cc = post[i].1 as int;
                assert(!marked_grid[rr][cc]);
                assert(in_bounds(maze@, post[i]));
                if rr == curr.0 as int && cc == curr.1 as int {
                    assert(marked_grid[rr][cc]);
                } else {
                    if rr == curr.0 as int {
                        assert(marked_grid[rr] == entry_grid[rr].update(curr.1 as int, true));
                        assert(entry_grid[rr][cc] == marked_grid[rr][cc]);
                    } else {
                        assert(marked_grid[rr] == entry_grid[rr]);
                    }
                }
                if post[i] == curr {
                    assert(rr == curr.0 as int && cc == curr.1 as int);
                }
            }
            assert(pushed.drop_last().is_prefix_of(post)) by {
                assert forall|i: int| 0 <= i < pushed.len() - 1 implies pushed.drop_last()[i]
                    == post[i] by {
                    assert(pushed[i] == post[i]);
                }
            }
            assert(post[pushed.len() - 1] == pushed.last()) by {
                assert(pushed[pushed.len() - 1] == post[pushed.len() - 1]);
            }
            assert forall|i: int|
                pushed.len() - 1 <= i < post.len() - 1 implies adjacent(
                #[trigger] post[i],
                post[i + 1],
            ) by {
                if i < pushed.len() {
                    if i == pushed.len() - 1 {
                        assert(post[i] == pushed.last());
                        assert(post[i + 1] == next);
                    }
                }
            }
            assert forall|i: int|
                pushed.len() - 1 <= i < post.len() implies in_bounds(maze@, #[trigger] post[i]) by {
                if i == pushed.len() - 1 {
                    assert(post[i] == pushed.last());
                }
            }
        }
    }
    r
}

} // verus!
