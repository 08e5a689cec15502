//! A tree noted branch by branch, and the way from its root to the one
//! fruit that hangs at a depth of its own. The tree is gone through
//! level by level; a way is written with the first letter of each node
//! on it and `@` for the fruit.

use crate::text::{
    chars_of, copy_of, lines, lines_of, pieces_view, same_text, split, split_at_each, split_once,
    split_once_at, text_of,
};
use vstd::prelude::*;

verus! {

/// A node with the nodes that branch off it.
pub struct Root {
    pub name: Vec<char>,
    pub branches: Vec<Vec<char>>,
}

/// Why no way was found.
#[derive(Clone, Copy, Debug, PartialEq, Eq, Structural)]
pub enum PathError {
    /// A line has no `:` between the node and its branches.
    BadLine,
    /// A node on a way has no name, or a name that begins with no
    /// letter of one byte.
    BadName,
    /// The tree goes deeper than the levels allowed.
    TooDeep,
    /// No fruit hangs at a depth of its own.
    NoUniqueLength,
}

/// A row as it is read: the name of a node, and the names of the nodes
/// that branch off it.
pub type Row = (Seq<char>, Seq<Seq<char>>);

/// The rows as they are read.
pub open spec fn roots_view(roots: Seq<Root>) -> Seq<Row> {
    Seq::new(roots.len(), |k: int| (roots[k].name@, pieces_view(roots[k].branches@)))
}

/// A node that waits to be gone through: the way that led to it, and
/// its name.
pub type Waiting = (Vec<char>, Vec<char>);

/// What going through nodes has found: ways to fruits, and the nodes of
/// the next level.
pub struct Sweep {
    pub fruits: Seq<Seq<char>>,
    pub next: Seq<(Seq<char>, Seq<char>)>,
}

/// The views of waiting nodes.
pub open spec fn waiting_view(level: Seq<Waiting>) -> Seq<(Seq<char>, Seq<char>)> {
    Seq::new(level.len(), |k: int| (level[k].0@, level[k].1@))
}

/// The row among the first `upto` that notes the node, the last one
/// if there are several.
pub open spec fn found_at(roots: Seq<Row>, name: Seq<char>, upto: int) -> Option<int>
    decreases upto,
{
    if upto <= 0 {
        None
    } else if roots[upto - 1].0 == name {
        Some(upto - 1)
    } else {
        found_at(roots, name, upto - 1)
    }
}

/// The name of the fruit.
pub open spec fn is_fruit(name: Seq<char>) -> bool {
    name == seq!['@']
}

/// The names of the pests, below which nothing is looked for.
pub open spec fn is_pest(name: Seq<char>) -> bool {
    name == seq!['B', 'U', 'G'] || name == seq!['A', 'N', 'T']
}

/// The letter that stands for a node on a way: the first of its name,
/// which has to be of one byte.
pub open spec fn initial(name: Seq<char>) -> Option<char> {
    if name.len() > 0 && (name[0] as u32) < 128 {
        Some(name[0])
    } else {
        None
    }
}

/// What the first `upto` branches of a node lead to, the node having
/// been reached by `path`. With `pests` set, pests are passed over.
/// `None` when the node has a branch to note and no letter to stand
/// for it.
pub open spec fn visit(
    branches: Seq<Seq<char>>,
    path: Seq<char>,
    root: Seq<char>,
    pests: bool,
    upto: nat,
) -> Option<Sweep>
    decreases upto,
{
    if upto == 0 {
        Some(Sweep { fruits: Seq::empty(), next: Seq::empty() })
    } else {
        match visit(branches, path, root, pests, (upto - 1) as nat) {
            None => None,
            Some(s) => {
                let to = branches[upto - 1];
                if pests && is_pest(to) {
                    Some(s)
                } else {
                    match initial(root) {
                        None => None,
                        Some(c) => if is_fruit(to) {
                            Some(
                                Sweep { fruits: s.fruits.push(path.push(c).push('@')), next: s.next },
                            )
                        } else {
                            Some(Sweep { fruits: s.fruits, next: s.next.push((path.push(c), to)) })
                        },
                    }
                }
            },
        }
    }
}

/// What the first `upto` nodes of a level lead to. A node that no row
/// notes leads to nothing.
pub open spec fn sweep(
    roots: Seq<Row>,
    level: Seq<(Seq<char>, Seq<char>)>,
    pests: bool,
    upto: nat,
) -> Option<Sweep>
    decreases upto,
{
    if upto == 0 {
        Some(Sweep { fruits: Seq::empty(), next: Seq::empty() })
    } else {
        match sweep(roots, level, pests, (upto - 1) as nat) {
            None => None,
            Some(s) => {
                let (path, root) = level[upto - 1];
                match found_at(roots, root, roots.len() as int) {
                    None => Some(s),
                    Some(i) => match visit(roots[i].1, path, root, pests, roots[i].1.len()) {
                        None => None,
                        Some(v) => Some(
                            Sweep { fruits: s.fruits + v.fruits, next: s.next + v.next },
                        ),
                    },
                }
            },
        }
    }
}

/// The way to the fruit that is alone at its depth, the least such
/// depth counting, found by going through `level` and at most `limit`
/// levels in all; `Ok(None)` when there is no such fruit.
pub open spec fn explore(
    roots: Seq<Row>,
    level: Seq<(Seq<char>, Seq<char>)>,
    pests: bool,
    limit: nat,
) -> Result<Option<Seq<char>>, PathError>
    decreases limit,
{
    if level.len() == 0 {
        Ok(None)
    } else if limit == 0 {
        Err(PathError::TooDeep)
    } else {
        match sweep(roots, level, pests, level.len()) {
            None => Err(PathError::BadName),
            Some(s) => match explore(roots, s.next, pests, (limit - 1) as nat) {
                Err(e) => Err(e),
                Ok(later) => if s.fruits.len() == 1 {
                    Ok(Some(s.fruits[0]))
                } else {
                    Ok(later)
                },
            },
        }
    }
}

/// A way found earlier stands before what is found later.
pub open spec fn settle(found: Option<Seq<char>>, later: Result<Option<Seq<char>>, PathError>) -> Result<
    Option<Seq<char>>,
    PathError,
> {
    match later {
        Err(e) => Err(e),
        Ok(l) => if found is Some {
            Ok(found)
        } else {
            Ok(l)
        },
    }
}

/// The level that the tree is gone through from: the node `RR`, reached
/// by the empty way.
pub open spec fn first_level() -> Seq<(Seq<char>, Seq<char>)> {
    seq![(Seq::<char>::empty(), seq!['R', 'R'])]
}

/// The way to the fruit that is alone at its depth.
pub open spec fn unique_path(roots: Seq<Row>, pests: bool, limit: nat) -> Result<
    Seq<char>,
    PathError,
> {
    match explore(roots, first_level(), pests, limit) {
        Err(e) => Err(e),
        Ok(None) => Err(PathError::NoUniqueLength),
        Ok(Some(path)) => Ok(path),
    }
}

/// Looks the node up.
pub fn find_root(roots: &Vec<Root>, name: &Vec<char>) -> (at: Option<usize>)
    ensures
        match at {
            Some(i) => found_at(roots_view(roots@), name@, roots@.len() as int) == Some(i as int)
                && i < roots@.len(),
            None => found_at(roots_view(roots@), name@, roots@.len() as int).is_none(),
        },
{
    let mut k: usize = roots.len();
    while k > 0
        invariant
            0 <= k <= roots.len(),
            found_at(roots_view(roots@), name@, roots@.len() as int) == found_at(
                roots_view(roots@),
                name@,
                k as int,
            ),
        decreases k,
    {
        assert(roots_view(roots@)[k - 1].0 == roots@[k - 1].name@);
        if same_text(&roots[k - 1].name, name) {
            return Some(k - 1);
        }
        k -= 1;
    }
    None
}

/// Whether the name is that of a pest.
pub fn pest(name: &Vec<char>) -> (yes: bool)
    ensures
        yes == is_pest(name@),
{
    let yes = name.len() == 3 && ((name[0] == 'B' && name[1] == 'U' && name[2] == 'G') || (name[0]
        == 'A' && name[1] == 'N' && name[2] == 'T'));
    proof {
        if yes {
            assert(name@ =~= seq!['B', 'U', 'G'] || name@ =~= seq!['A', 'N', 'T']);
        } else if is_pest(name@) {
            assert(seq!['B', 'U', 'G'].len() == 3);
            assert(seq!['A', 'N', 'T'].len() == 3);
            assert(seq!['B', 'U', 'G'][0] == 'B' && seq!['B', 'U', 'G'][1] == 'U' && seq![
                'B',
                'U',
                'G',
            ][2] == 'G');
            assert(seq!['A', 'N', 'T'][0] == 'A' && seq!['A', 'N', 'T'][1] == 'N' && seq![
                'A',
                'N',
                'T',
            ][2] == 'T');
        }
    }
    yes
}

/// Goes through the branches of a node that was reached by `path`.
pub fn visit_node(branches: &Vec<Vec<char>>, path: &Vec<char>, root: &Vec<char>, pests: bool) -> (found:
    Option<(Vec<Vec<char>>, Vec<Waiting>)>)
    ensures
        match found {
            Some((fruits, next)) => visit(
                pieces_view(branches@),
                path@,
                root@,
                pests,
                branches@.len(),
            ) == Some(Sweep { fruits: pieces_view(fruits@), next: waiting_view(next@) }),
            None => visit(pieces_view(branches@), path@, root@, pests, branches@.len()).is_none(),
        },
{
    let ghost view = pieces_view(branches@);
    let mut fruits: Vec<Vec<char>> = Vec::new();
    let mut next: Vec<Waiting> = Vec::new();
    let mut k: usize = 0;
    assert(pieces_view(fruits@) =~= Seq::<Seq<char>>::empty());
    assert(waiting_view(next@) =~= Seq::<(Seq<char>, Seq<char>)>::empty());
    while k < branches.len()
        invariant
            0 <= k <= branches.len(),
            view == pieces_view(branches@),
            visit(view, path@, root@, pests, k as nat) == Some(
                Sweep { fruits: pieces_view(fruits@), next: waiting_view(next@) },
            ),
        decreases branches.len() - k,
    {
        let to = &branches[k];
        assert(view[k as int] == to@);
        let ghost fruits_before = pieces_view(fruits@);
        let ghost next_before = waiting_view(next@);
        if !(pests && pest(to)) {
            if root.len() == 0 || root[0] as u32 >= 128 {
                proof {
                    assert(visit(view, path@, root@, pests, (k + 1) as nat).is_none());
                    lemma_visit_fails(view, path@, root@, pests, (k + 1) as nat, branches@.len());
                }
                return None;
            }
            let mut way = copy_of(path);
            way.push(root[0]);
            if to.len() == 1 && to[0] == '@' {
                assert(to@ =~= seq!['@']);
                way.push('@');
                fruits.push(way);
                assert(pieces_view(fruits@) =~= fruits_before.push(
                    path@.push(root@[0]).push('@'),
                ));
            } else {
                assert(!is_fruit(to@)) by {
                    if is_fruit(to@) {
                        assert(seq!['@'].len() == 1);
                        assert(seq!['@'][0] == '@');
                    }
                }
                next.push((way, copy_of(to)));
                assert(waiting_view(next@) =~= next_before.push((path@.push(root@[0]), to@)));
            }
        }
        k += 1;
    }
    Some((fruits, next))
}

/// Once a branch cannot be noted, the node cannot be gone through.
pub proof fn lemma_visit_fails(
    branches: Seq<Seq<char>>,
    path: Seq<char>,
    root: Seq<char>,
    pests: bool,
    k: nat,
    upto: nat,
)
    requires
        k <= upto,
        visit(branches, path, root, pests, k).is_none(),
    ensures
        visit(branches, path, root, pests, upto).is_none(),
    decreases upto,
{
    if k < upto {
        lemma_visit_fails(branches, path, root, pests, k, (upto - 1) as nat);
    }
}

/// Once a node cannot be gone through, the level cannot.
pub proof fn lemma_sweep_fails(
    roots: Seq<Row>,
    level: Seq<(Seq<char>, Seq<char>)>,
    pests: bool,
    k: nat,
    upto: nat,
)
    requires
        k <= upto,
        sweep(roots, level, pests, k).is_none(),
    ensures
        sweep(roots, level, pests, upto).is_none(),
    decreases upto,
{
    if k < upto {
        lemma_sweep_fails(roots, level, pests, k, (upto - 1) as nat);
    }
}

/// Goes through the nodes of a level.
pub fn sweep_level(roots: &Vec<Root>, level: &Vec<Waiting>, pests: bool) -> (found: Option<
    (Vec<Vec<char>>, Vec<Waiting>),
>)
    ensures
        match found {
            Some((fruits, next)) => sweep(
                roots_view(roots@),
                waiting_view(level@),
                pests,
                level@.len(),
            ) == Some(Sweep { fruits: pieces_view(fruits@), next: waiting_view(next@) }),
            None => sweep(roots_view(roots@), waiting_view(level@), pests, level@.len()).is_none(),
        },
{
    let ghost view = waiting_view(level@);
    let ghost rows = roots_view(roots@);
    let mut fruits: Vec<Vec<char>> = Vec::new();
    let mut next: Vec<Waiting> = Vec::new();
    assert(pieces_view(fruits@) =~= Seq::<Seq<char>>::empty());
    assert(waiting_view(next@) =~= Seq::<(Seq<char>, Seq<char>)>::empty());
    let mut k: usize = 0;
    while k < level.len()
        invariant
            0 <= k <= level.len(),
            view == waiting_view(level@),
            rows == roots_view(roots@),
            sweep(rows, view, pests, k as nat) == Some(
                Sweep { fruits: pieces_view(fruits@), next: waiting_view(next@) },
            ),
        decreases level.len() - k,
    {
        let path = &level[k].0;
        let root = &level[k].1;
        assert(view[k as int] == (path@, root@));
        match find_root(roots, root) {
            Some(i) => {
                assert(rows[i as int].1 == pieces_view(roots@[i as int].branches@));
                match visit_node(&roots[i].branches, path, root, pests) {
                    Some((mut more_fruits, mut more_next)) => {
                        let ghost fruits_before = pieces_view(fruits@);
                        let ghost next_before = waiting_view(next@);
                        let ghost fruits_more = pieces_view(more_fruits@);
                        let ghost next_more = waiting_view(more_next@);
                        fruits.append(&mut more_fruits);
                        next.append(&mut more_next);
                        assert(pieces_view(fruits@) =~= fruits_before + fruits_more);
                        assert(waiting_view(next@) =~= next_before + next_more);
                    },
                    None => {
                        proof {
                            assert(sweep(rows, view, pests, (k + 1) as nat).is_none());
                            lemma_sweep_fails(rows, view, pests, (k + 1) as nat, level@.len());
                        }
                        return None;
                    },
                }
            },
            None => {},
        }
        k += 1;
    }
    Some((fruits, next))
}

/// The way from the node `RR` to the fruit that is alone at its depth,
/// the least such depth counting. With `pests` set, nothing is looked
/// for below the pests `BUG` and `ANT`. The whole tree is gone through
/// first, so a fault further down is reported though a way was found
/// above it.
pub fn fruit_path(roots: &Vec<Root>, pests: bool, limit: usize) -> (path: Result<Vec<char>, PathError>)
    ensures
        match path {
            Ok(p) => unique_path(roots_view(roots@), pests, limit as nat) == Ok::<
                Seq<char>,
                PathError,
            >(p@),
            Err(e) => unique_path(roots_view(roots@), pests, limit as nat) == Err::<
                Seq<char>,
                PathError,
            >(e),
        },
{
    let mut level: Vec<Waiting> = Vec::new();
    let mut start: Vec<char> = Vec::new();
    start.push('R');
    start.push('R');
    assert(start@ =~= seq!['R', 'R']);
    level.push((Vec::new(), start));
    assert(level@[0].0@ =~= Seq::<char>::empty());
    assert(waiting_view(level@) =~= first_level());
    let ghost rows = roots_view(roots@);
    let mut found: Option<Vec<char>> = None;
    let mut left: usize = limit;
    loop
        invariant
            rows == roots_view(roots@),
            explore(rows, first_level(), pests, limit as nat) == settle(
                match found {
                    Some(p) => Some(p@),
                    None => None,
                },
                explore(rows, waiting_view(level@), pests, left as nat),
            ),
        decreases left,
    {
        if level.len() == 0 {
            return match found {
                Some(p) => Ok(p),
                None => Err(PathError::NoUniqueLength),
            };
        }
        if left == 0 {
            return Err(PathError::TooDeep);
        }
        match sweep_level(roots, &level, pests) {
            None => {
                return Err(PathError::BadName);
            },
            Some((fruits, next)) => {
                if found.is_none() && fruits.len() == 1 {
                    found = Some(copy_of(&fruits[0]));
                    assert(pieces_view(fruits@)[0] == fruits@[0]@);
                }
                level = next;
            },
        }
        left -= 1;
    }
}

/// The row that a line such as `RR:A,B` notes.
pub open spec fn root_of(line: Seq<char>) -> Option<Row> {
    match split_once(line, ':') {
        Some((name, rest)) => Some((name, split(rest, ','))),
        None => None,
    }
}

/// The rows that the lines note.
pub open spec fn roots_of(rows: Seq<Seq<char>>) -> Option<Seq<Row>> {
    if forall|k: int| 0 <= k < rows.len() ==> root_of(#[trigger] rows[k]) is Some {
        Some(Seq::new(rows.len(), |k: int| root_of(rows[k]).unwrap()))
    } else {
        None
    }
}

/// Reads the tree, a row from each line. Every line has to hold a `:`;
/// `read` tells whether each does.
pub fn parse(input: &str) -> (roots: Vec<Root>)
    requires
        roots_of(lines(input@)) is Some,
    ensures
        roots_of(lines(input@)) == Some(roots_view(roots@)),
{
    read(input).unwrap()
}

/// Reads the tree, a row from each line; `None` when a line has no `:`.
pub fn read(input: &str) -> (roots: Option<Vec<Root>>)
    ensures
        match roots {
            Some(r) => roots_of(lines(input@)) == Some(roots_view(r@)),
            None => roots_of(lines(input@)).is_none(),
        },
{
    let chars = chars_of(input);
    let rows = lines_of(&chars);
    let ghost view = pieces_view(rows@);
    let mut roots: Vec<Root> = Vec::new();
    let mut k: usize = 0;
    while k < rows.len()
        invariant
            0 <= k <= rows.len(),
            view == pieces_view(rows@),
            view == lines(input@),
            roots@.len() == k,
            forall|j: int|
                0 <= j < k ==> root_of(#[trigger] view[j]) == Some(
                    (roots@[j].name@, pieces_view(roots@[j].branches@)),
                ),
        decreases rows.len() - k,
    {
        assert(view[k as int] == rows@[k as int]@);
        match split_once_at(&rows[k], ':') {
            Some((name, rest)) => {
                let branches = split_at_each(&rest, ',');
                roots.push(Root { name, branches });
            },
            None => {
                assert(root_of(view[k as int]).is_none());
                return None;
            },
        }
        k += 1;
    }
    assert(roots_view(roots@) =~= Seq::new(view.len(), |k: int| root_of(view[k]).unwrap()));
    Some(roots)
}

/// Reads the tree and finds the way to the fruit that is alone at its
/// depth, pests being passed over.
pub fn get_path(input: &str, limit: usize) -> (path: Result<String, PathError>)
    ensures
        match roots_of(lines(input@)) {
            Some(rows) => match path {
                Ok(p) => unique_path(rows, true, limit as nat) == Ok::<Seq<char>, PathError>(p@),
                Err(e) => unique_path(rows, true, limit as nat) == Err::<Seq<char>, PathError>(e),
            },
            None => path == Err::<String, PathError>(PathError::BadLine),
        },
{
    let roots = match read(input) {
        Some(r) => r,
        None => {
            return Err(PathError::BadLine);
        },
    };
    match fruit_path(&roots, true, limit) {
        Ok(p) => Ok(text_of(&p)),
        Err(e) => Err(e),
    }
}

} // verus!
