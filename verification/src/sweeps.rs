//! What the sweeps of the decomposition do: both factors take the same
//! rotations, and the sweeps end where no pair of columns is left to turn.
use crate::binary64::Binary64;
use crate::grid::Grid;
use crate::least_squares;
use crate::least_squares::{Factors, Progress};
use vstd::prelude::*;

verus! {

/// A rotation of two columns.
pub struct Turn {
    pub left: int,
    pub right: int,
    pub cosine: Binary64,
    pub sine: Binary64,
}

/// A matrix after a list of rotations.
pub open spec fn turned_by(g: Grid, turns: Seq<Turn>) -> Grid
    decreases turns.len(),
{
    if turns.len() == 0 {
        g
    } else {
        let last = turns.last();
        least_squares::turned(
            turned_by(g, turns.drop_last()),
            last.left,
            last.right,
            last.cosine,
            last.sine,
        )
    }
}

/// Each rotation turns a column and a later one.
pub open spec fn within(turns: Seq<Turn>, cols: int) -> bool {
    forall|k: int|
        0 <= k < turns.len() ==> 0 <= (#[trigger] turns[k]).left && turns[k].left < turns[k].right
            && turns[k].right < cols
}

/// The pair needs no rotation: both columns are zero, one is numerically null,
/// or they are orthogonal to rounding.
pub open spec fn at_rest(columns: Grid, left: int, right: int, threshold: Binary64) -> bool {
    let scale = least_squares::pair_scale(columns.column(left), columns.column(right));
    let g = least_squares::gram(columns.column(left), columns.column(right), scale);
    scale.zero() || least_squares::rotation(g, scale, threshold) is None
}

/// The rotations lead from some factors to others.
spec fn leads(f: Factors, turns: Seq<Turn>, g: Factors, cols: int) -> bool {
    &&& within(turns, cols)
    &&& g.columns == turned_by(f.columns, turns)
    &&& g.vectors == turned_by(f.vectors, turns)
    &&& g.rotated == (f.rotated || turns.len() > 0)
}

proof fn lemma_turned_by_both(g: Grid, first: Seq<Turn>, second: Seq<Turn>)
    ensures
        turned_by(turned_by(g, first), second) == turned_by(g, first + second),
    decreases second.len(),
{
    if second.len() == 0 {
        assert(first + second =~= first);
    } else {
        lemma_turned_by_both(g, first, second.drop_last());
        assert((first + second).drop_last() =~= first + second.drop_last());
        assert((first + second).last() == second.last());
    }
}

proof fn lemma_turned_by_shape(g: Grid, turns: Seq<Turn>)
    ensures
        turned_by(g, turns).rows == g.rows,
        turned_by(g, turns).cols == g.cols,
    decreases turns.len(),
{
    if turns.len() > 0 {
        lemma_turned_by_shape(g, turns.drop_last());
    }
}

proof fn lemma_leads_on(
    f: Factors,
    first: Seq<Turn>,
    g: Factors,
    second: Seq<Turn>,
    h: Factors,
    cols: int,
)
    requires
        leads(f, first, g, cols),
        leads(g, second, h, cols),
    ensures
        leads(f, first + second, h, cols),
{
    lemma_turned_by_both(f.columns, first, second);
    lemma_turned_by_both(f.vectors, first, second);
    let all = first + second;
    assert forall|k: int| 0 <= k < all.len() implies 0 <= (#[trigger] all[k]).left && all[k].left
        < all[k].right && all[k].right < cols by {
        if k < first.len() {
            assert(all[k] == first[k]);
        } else {
            assert(all[k] == second[k - first.len()]);
        }
    }
}

proof fn lemma_visited(f: Factors, left: int, right: int, threshold: Binary64, cols: int) -> (turns:
    Seq<Turn>)
    requires
        0 <= left < right < cols,
        least_squares::visited(f, left, right, threshold) is Ok,
    ensures
        leads(f, turns, least_squares::visited(f, left, right, threshold)->Ok_0, cols),
        turns.len() == 0 ==> at_rest(f.columns, left, right, threshold),
{
    let scale = least_squares::pair_scale(f.columns.column(left), f.columns.column(right));
    let g = least_squares::gram(f.columns.column(left), f.columns.column(right), scale);
    let rotation = least_squares::rotation(g, scale, threshold);
    if scale.zero() || rotation is None {
        Seq::empty()
    } else {
        let (cosine, sine) = rotation->Some_0;
        let turns = seq![Turn { left, right, cosine, sine }];
        assert(turns.drop_last() =~= Seq::<Turn>::empty());
        assert(turned_by(f.columns, turns.drop_last()) == f.columns);
        assert(turned_by(f.vectors, turns.drop_last()) == f.vectors);
        assert(turns.last() == (Turn { left, right, cosine, sine }));
        turns
    }
}

proof fn lemma_swept_column(
    f: Factors,
    left: int,
    end: int,
    threshold: Binary64,
    cols: int,
) -> (turns: Seq<Turn>)
    requires
        0 <= left,
        end <= cols,
        least_squares::swept_column(f, left, end, threshold) is Ok,
    ensures
        leads(f, turns, least_squares::swept_column(f, left, end, threshold)->Ok_0, cols),
        turns.len() == 0 ==> forall|right: int|
            left < right < end ==> #[trigger] at_rest(f.columns, left, right, threshold),
    decreases end,
{
    if end <= left + 1 || end <= 0 {
        Seq::empty()
    } else {
        let first = lemma_swept_column(f, left, end - 1, threshold, cols);
        let g = least_squares::swept_column(f, left, end - 1, threshold)->Ok_0;
        let second = lemma_visited(g, left, end - 1, threshold, cols);
        let h = least_squares::visited(g, left, end - 1, threshold)->Ok_0;
        lemma_leads_on(f, first, g, second, h, cols);
        first + second
    }
}

proof fn lemma_swept(f: Factors, end: int, threshold: Binary64, cols: int) -> (turns: Seq<Turn>)
    requires
        end <= cols,
        least_squares::swept(f, end, cols, threshold) is Ok,
    ensures
        leads(f, turns, least_squares::swept(f, end, cols, threshold)->Ok_0, cols),
        turns.len() == 0 ==> forall|left: int, right: int|
            0 <= left < end && left < right < cols ==> #[trigger] at_rest(
                f.columns,
                left,
                right,
                threshold,
            ),
    decreases end,
{
    if end <= 0 {
        Seq::empty()
    } else {
        let first = lemma_swept(f, end - 1, threshold, cols);
        let g = least_squares::swept(f, end - 1, cols, threshold)->Ok_0;
        let second = lemma_swept_column(g, end - 1, cols, threshold, cols);
        let h = least_squares::swept_column(g, end - 1, cols, threshold)->Ok_0;
        lemma_leads_on(f, first, g, second, h, cols);
        first + second
    }
}

/// What has been rotated so far, by the rotations that were made.
spec fn made(columns: Grid, turns: Seq<Turn>, a: Grid, v: Grid) -> bool {
    &&& within(turns, columns.cols as int)
    &&& a == turned_by(columns, turns)
    &&& v == turned_by(Grid::identity(columns.cols), turns)
}

/// No pair of columns is left to turn.
pub open spec fn all_at_rest(columns: Grid, relative: Binary64) -> bool {
    forall|left: int, right: int|
        0 <= left < right < columns.cols ==> #[trigger] at_rest(
            columns,
            left,
            right,
            relative * least_squares::greatest(least_squares::column_lengths(columns)),
        )
}

proof fn lemma_progress(columns: Grid, relative: Binary64, sweeps: nat) -> (turns: Seq<Turn>)
    ensures
        least_squares::progress(columns, relative, sweeps) matches Progress::Running(a, v) ==> made(
            columns,
            turns,
            a,
            v,
        ),
        least_squares::progress(columns, relative, sweeps) matches Progress::Converged(a, v)
            ==> made(columns, turns, a, v) && all_at_rest(a, relative),
    decreases sweeps,
{
    if sweeps == 0 {
        Seq::empty()
    } else {
        let first = lemma_progress(columns, relative, (sweeps - 1) as nat);
        match least_squares::progress(columns, relative, (sweeps - 1) as nat) {
            Progress::Running(a, v) => {
                match least_squares::sweep(a, v, relative) {
                    Err(_) => first,
                    Ok(h) => {
                        let f = Factors { columns: a, vectors: v, rotated: false };
                        let threshold = relative * least_squares::greatest(
                            least_squares::column_lengths(a),
                        );
                        lemma_turned_by_shape(columns, first);
                        let second = lemma_swept(f, a.cols as int, threshold, a.cols as int);
                        let start = Factors {
                            columns,
                            vectors: Grid::identity(columns.cols),
                            rotated: first.len() > 0,
                        };
                        let middle = Factors { columns: a, vectors: v, rotated: first.len() > 0 };
                        let last = Factors {
                            columns: h.columns,
                            vectors: h.vectors,
                            rotated: first.len() > 0 || second.len() > 0,
                        };
                        lemma_leads_on(start, first, middle, second, last, a.cols as int);
                        first + second
                    },
                }
            },
            _ => first,
        }
    }
}

/// A decomposition is made of rotations. One list of them turns the given
/// matrix into the first factor and the identity into the second, and no pair of
/// columns of the first factor is left to turn.
pub proof fn law_decomposition(columns: Grid, relative: Binary64)
    requires
        least_squares::decomposition(columns, relative) is Ok,
    ensures
        ({
            let (a, v) = least_squares::decomposition(columns, relative)->Ok_0;
            &&& exists|turns: Seq<Turn>|
                {
                    &&& within(turns, columns.cols as int)
                    &&& a == #[trigger] turned_by(columns, turns)
                    &&& v == turned_by(Grid::identity(columns.cols), turns)
                }
            &&& all_at_rest(a, relative)
        }),
{
    let (a, v) = least_squares::decomposition(columns, relative)->Ok_0;
    let turns = lemma_progress(columns, relative, least_squares::sweep_limit(columns.cols));
    assert(a == turned_by(columns, turns));
}

} // verus!
