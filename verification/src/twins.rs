//! Two search trees that grow side by side: every node added to one has
//! a twin of the same name in the other, and twins can change places.
//! The nodes of both trees stand in one list and point to their
//! children by place.

use crate::text::{
    chars_of, copy_of, fields, fields_of, lines, lines_of, pieces_view, same_text, split_once,
    split_once_at, strip_prefix, strip_suffix, text_of, trim, trimmed, without_prefix,
    without_suffix, word, parse_word,
};
use vstd::prelude::*;

verus! {

/// What twins exchange: their rank and symbol only, or their children too.
#[derive(Clone, Copy, Debug, PartialEq, Eq, Structural)]
pub enum SwapMode {
    Shallow,
    Deep,
}

/// A step of the growing: a pair of twins is added, or twins change places.
#[derive(Debug, PartialEq, Eq)]
pub enum Command {
    Add { id: usize, left_rank: usize, left_symbol: Vec<char>, right_rank: usize, right_symbol: Vec<char> },
    Swap { id: usize },
}

/// A step as it is read.
pub enum Order {
    Add { id: usize, left_rank: usize, left_symbol: Seq<char>, right_rank: usize, right_symbol: Seq<char> },
    Swap { id: usize },
}

impl Command {
    /// The step as it is read.
    pub open spec fn view(&self) -> Order {
        match *self {
            Command::Add { id, left_rank, left_symbol, right_rank, right_symbol } => Order::Add {
                id,
                left_rank,
                left_symbol: left_symbol@,
                right_rank,
                right_symbol: right_symbol@,
            },
            Command::Swap { id } => Order::Swap { id },
        }
    }
}

/// A text without the square brackets that may stand round it.
pub open spec fn unwrapped(s: Seq<char>) -> Seq<char> {
    let opened = match strip_prefix(s, "["@) {
        Some(rest) => rest,
        None => s,
    };
    match strip_suffix(opened, "]"@) {
        Some(rest) => rest,
        None => opened,
    }
}

/// The rank and the symbol that a text such as `[7,X]` spells.
pub open spec fn node_data(s: Seq<char>) -> Option<(usize, Seq<char>)> {
    match split_once(unwrapped(s), ',') {
        Some((rank, symbol)) => match word(trim(rank)) {
            Some(r) => Some((r, trim(symbol))),
            None => None,
        },
        None => None,
    }
}

/// The step that a line spells: `ADD id=1 left=[7,X] right=[3,Y]` or
/// `SWAP 1`.
pub open spec fn order_of(line: Seq<char>) -> Option<Order> {
    let parts = fields(line);
    if parts.len() == 4 && parts[0] == "ADD"@ {
        match (
            strip_prefix(parts[1], "id="@),
            strip_prefix(parts[2], "left="@),
            strip_prefix(parts[3], "right="@),
        ) {
            (Some(id), Some(left), Some(right)) => match (word(id), node_data(left), node_data(right)) {
                (Some(id), Some(l), Some(r)) => Some(
                    Order::Add {
                        id,
                        left_rank: l.0,
                        left_symbol: l.1,
                        right_rank: r.0,
                        right_symbol: r.1,
                    },
                ),
                _ => None,
            },
            _ => None,
        }
    } else if parts.len() == 2 && parts[0] == "SWAP"@ {
        match word(parts[1]) {
            Some(id) => Some(Order::Swap { id }),
            None => None,
        }
    } else {
        None
    }
}

/// The steps that the lines spell, if each spells one.
pub open spec fn orders_of(rows: Seq<Seq<char>>) -> Option<Seq<Order>> {
    if forall|k: int| 0 <= k < rows.len() ==> order_of(#[trigger] rows[k]) is Some {
        Some(Seq::new(rows.len(), |k: int| order_of(rows[k]).unwrap()))
    } else {
        None
    }
}

/// The steps as they are read.
pub open spec fn orders_view(commands: Seq<Command>) -> Seq<Order> {
    Seq::new(commands.len(), |k: int| commands[k]@)
}

/// Reads a rank and a symbol.
pub fn parse_node_data(s: &Vec<char>) -> (data: Option<(usize, Vec<char>)>)
    ensures
        match data {
            Some((rank, symbol)) => node_data(s@) == Some((rank, symbol@)),
            None => node_data(s@).is_none(),
        },
{
    let opened = match without_prefix(s, "[") {
        Some(rest) => rest,
        None => copy_of(s),
    };
    let inner = match without_suffix(&opened, "]") {
        Some(rest) => rest,
        None => opened,
    };
    assert(inner@ == unwrapped(s@));
    match split_once_at(&inner, ',') {
        Some((rank, symbol)) => match parse_word(&trimmed(&rank)) {
            Some(r) => Some((r, trimmed(&symbol))),
            None => None,
        },
        None => None,
    }
}

/// Reads one step.
pub fn parse_command(line: &Vec<char>) -> (command: Option<Command>)
    ensures
        match command {
            Some(c) => order_of(line@) == Some(c@),
            None => order_of(line@).is_none(),
        },
{
    let parts = fields_of(line);
    let ghost views = pieces_view(parts@);
    if parts.len() == 4 {
        assert(views[0] == parts@[0]@ && views[1] == parts@[1]@ && views[2] == parts@[2]@
            && views[3] == parts@[3]@);
        if !same_text(&parts[0], &chars_of("ADD")) {
            return None;
        }
        let id = without_prefix(&parts[1], "id=");
        let left = without_prefix(&parts[2], "left=");
        let right = without_prefix(&parts[3], "right=");
        match (id, left, right) {
            (Some(id), Some(left), Some(right)) => {
                match (parse_word(&id), parse_node_data(&left), parse_node_data(&right)) {
                    (Some(id), Some(l), Some(r)) => Some(
                        Command::Add {
                            id,
                            left_rank: l.0,
                            left_symbol: l.1,
                            right_rank: r.0,
                            right_symbol: r.1,
                        },
                    ),
                    _ => None,
                }
            },
            _ => None,
        }
    } else if parts.len() == 2 {
        assert(views[0] == parts@[0]@ && views[1] == parts@[1]@);
        if !same_text(&parts[0], &chars_of("SWAP")) {
            return None;
        }
        match parse_word(&parts[1]) {
            Some(id) => Some(Command::Swap { id }),
            None => None,
        }
    } else {
        None
    }
}

/// Reads the steps, one from each line. Every line has to spell a
/// step; `read` tells whether each does.
pub fn parse(input: &str) -> (commands: Vec<Command>)
    requires
        orders_of(lines(input@)) is Some,
    ensures
        orders_of(lines(input@)) == Some(orders_view(commands@)),
{
    read(input).unwrap()
}

/// Reads the steps, one from each line; `None` when a line spells none.
pub fn read(input: &str) -> (commands: Option<Vec<Command>>)
    ensures
        match commands {
            Some(c) => orders_of(lines(input@)) == Some(orders_view(c@)),
            None => orders_of(lines(input@)).is_none(),
        },
{
    let chars = chars_of(input);
    let rows = lines_of(&chars);
    let ghost view = pieces_view(rows@);
    let mut out: Vec<Command> = Vec::new();
    let mut k: usize = 0;
    while k < rows.len()
        invariant
            0 <= k <= rows.len(),
            view == pieces_view(rows@),
            view == lines(input@),
            out@.len() == k,
            forall|j: int| 0 <= j < k ==> order_of(#[trigger] view[j]) == Some(out@[j]@),
        decreases rows.len() - k,
    {
        assert(view[k as int] == rows@[k as int]@);
        match parse_command(&rows[k]) {
            Some(c) => {
                out.push(c);
            },
            None => {
                assert(order_of(view[k as int]).is_none());
                return None;
            },
        }
        k += 1;
    }
    assert(orders_view(out@) =~= Seq::new(view.len(), |k: int| order_of(view[k]).unwrap()));
    Some(out)
}

/// A node of a tree: its name, its rank, which orders the tree, its
/// symbol, and the places of its children in the list of nodes.
#[derive(Debug, PartialEq, Eq)]
pub struct Node {
    pub id: usize,
    pub rank: usize,
    pub symbol: Vec<char>,
    pub left: Option<usize>,
    pub right: Option<usize>,
}

/// A node as it is read.
pub struct Limb {
    pub id: usize,
    pub rank: usize,
    pub symbol: Seq<char>,
    pub left: Option<usize>,
    pub right: Option<usize>,
}

impl Node {
    /// The node as it is read.
    pub open spec fn view(&self) -> Limb {
        Limb { id: self.id, rank: self.rank, symbol: self.symbol@, left: self.left, right: self.right }
    }
}

/// The nodes as they are read.
pub open spec fn limbs(nodes: Seq<Node>) -> Seq<Limb> {
    Seq::new(nodes.len(), |k: int| nodes[k]@)
}

/// A tree: the place of its root in the list of nodes, if it has one.
#[derive(Clone, Copy, Debug, PartialEq, Eq)]
pub struct Tree {
    pub root: Option<usize>,
}

/// The pointer points to a node, if it points at all.
pub open spec fn linked(nodes: Seq<Limb>, link: Option<usize>) -> bool {
    match link {
        Some(c) => c < nodes.len(),
        None => true,
    }
}

/// Every pointer of every node points to a node.
pub open spec fn well_linked(nodes: Seq<Limb>) -> bool {
    forall|i: int|
        0 <= i < nodes.len() ==> linked(nodes, (#[trigger] nodes[i]).left) && linked(
            nodes,
            nodes[i].right,
        )
}

/// Where a new node goes: under a node as its left or right child,
/// nowhere because its rank is taken, or nowhere because the tree goes
/// deeper than it has nodes.
#[derive(Clone, Copy, Debug, PartialEq, Eq, Structural)]
pub enum Place {
    Under { parent: usize, left: bool },
    Taken,
    Lost,
}

/// Where a node of rank `rank` goes in the tree below `cur`: to the
/// left of greater ranks and to the right of smaller ones, down to the
/// first free place, at most `fuel` nodes deep.
pub open spec fn slot(nodes: Seq<Limb>, cur: usize, rank: usize, fuel: nat) -> Place
    decreases fuel,
{
    if fuel == 0 {
        Place::Lost
    } else if rank < nodes[cur as int].rank {
        match nodes[cur as int].left {
            Some(l) => slot(nodes, l, rank, (fuel - 1) as nat),
            None => Place::Under { parent: cur, left: true },
        }
    } else if rank > nodes[cur as int].rank {
        match nodes[cur as int].right {
            Some(r) => slot(nodes, r, rank, (fuel - 1) as nat),
            None => Place::Under { parent: cur, left: false },
        }
    } else {
        Place::Taken
    }
}

/// Finds the place for a node of rank `rank` below `cur`.
pub fn find_slot(nodes: &Vec<Node>, cur: usize, rank: usize) -> (place: Place)
    requires
        well_linked(limbs(nodes@)),
        cur < nodes@.len(),
    ensures
        place == slot(limbs(nodes@), cur, rank, nodes@.len()),
        match place {
            Place::Under { parent, left } => parent < nodes@.len() && (if left {
                nodes@[parent as int].left.is_none()
            } else {
                nodes@[parent as int].right.is_none()
            }),
            _ => true,
        },
{
    let ghost view = limbs(nodes@);
    let mut at = cur;
    let mut fuel: usize = nodes.len();
    while fuel > 0
        invariant
            view == limbs(nodes@),
            well_linked(view),
            at < nodes@.len(),
            slot(view, cur, rank, nodes@.len()) == slot(view, at, rank, fuel as nat),
        decreases fuel,
    {
        assert(view[at as int] == nodes@[at as int]@);
        if rank < nodes[at].rank {
            match nodes[at].left {
                Some(l) => {
                    at = l;
                },
                None => {
                    return Place::Under { parent: at, left: true };
                },
            }
        } else if rank > nodes[at].rank {
            match nodes[at].right {
                Some(r) => {
                    at = r;
                },
                None => {
                    return Place::Under { parent: at, left: false };
                },
            }
        } else {
            return Place::Taken;
        }
        fuel -= 1;
    }
    Place::Lost
}

/// A node without children.
pub open spec fn leaf(id: usize, rank: usize, symbol: Seq<char>) -> Limb {
    Limb { id, rank, symbol, left: None, right: None }
}

/// The nodes after `node` has been put in its place.
pub open spec fn grown(nodes: Seq<Limb>, place: Place, node: Limb) -> Seq<Limb> {
    match place {
        Place::Under { parent, left } => {
            let at = nodes.len() as usize;
            let above = nodes[parent as int];
            nodes.push(node).update(
                parent as int,
                if left {
                    Limb { left: Some(at), ..above }
                } else {
                    Limb { right: Some(at), ..above }
                },
            )
        },
        _ => nodes,
    }
}

/// The nodes and the root of a tree after a node has been added to
/// it: as the root of a tree that has none, else at the place that its
/// rank gives it.
pub open spec fn added(nodes: Seq<Limb>, root: Option<usize>, node: Limb) -> (
    Seq<Limb>,
    Option<usize>,
) {
    match root {
        None => (nodes.push(node), Some(nodes.len() as usize)),
        Some(r) => (grown(nodes, slot(nodes, r, node.rank, nodes.len()), node), Some(r)),
    }
}

impl Tree {
    /// A tree without nodes.
    pub fn new() -> (tree: Tree)
        ensures
            tree.root.is_none(),
    {
        Tree { root: None }
    }

    /// Adds a node: as the root of a tree that has none, else at the
    /// place that its rank gives it. A node whose rank is taken on the
    /// way down is dropped.
    pub fn add(&mut self, nodes: &mut Vec<Node>, id: usize, rank: usize, symbol: Vec<char>)
        requires
            well_linked(limbs(old(nodes)@)),
            linked(limbs(old(nodes)@), old(self).root),
        ensures
            well_linked(limbs(final(nodes)@)),
            linked(limbs(final(nodes)@), final(self).root),
            final(nodes)@.len() >= old(nodes)@.len(),
            (limbs(final(nodes)@), final(self).root) == added(
                limbs(old(nodes)@),
                old(self).root,
                leaf(id, rank, symbol@),
            ),
    {
        let new_node = Node { id, rank, symbol, left: None, right: None };
        self.insert(nodes, new_node);
    }

    /// Puts a node into the tree, with the nodes of the list that it
    /// points to below it.
    pub fn insert(&mut self, nodes: &mut Vec<Node>, new_node: Node)
        requires
            well_linked(limbs(old(nodes)@)),
            linked(limbs(old(nodes)@), old(self).root),
            linked(limbs(old(nodes)@), new_node.left),
            linked(limbs(old(nodes)@), new_node.right),
        ensures
            well_linked(limbs(final(nodes)@)),
            linked(limbs(final(nodes)@), final(self).root),
            final(nodes)@.len() >= old(nodes)@.len(),
            (limbs(final(nodes)@), final(self).root) == added(
                limbs(old(nodes)@),
                old(self).root,
                new_node@,
            ),
    {
        let ghost before = limbs(nodes@);
        let at = nodes.len();
        match self.root {
            None => {
                nodes.push(new_node);
                self.root = Some(at);
                assert(limbs(nodes@) =~= before.push(new_node@));
                assert forall|i: int| 0 <= i < limbs(nodes@).len() implies linked(
                    limbs(nodes@),
                    (#[trigger] limbs(nodes@)[i]).left,
                ) && linked(limbs(nodes@), limbs(nodes@)[i].right) by {
                    if i < before.len() {
                        assert(limbs(nodes@)[i] == before[i]);
                    }
                }
            },
            Some(r) => {
                Node::insert(nodes, r, new_node);
            },
        }
    }
}

impl Node {
    /// Puts a node into the tree below the node at `cur`: to the left of
    /// greater ranks and to the right of smaller ones, at the first free
    /// place. A node whose rank is taken on the way down is dropped, as
    /// is one for which the tree is deeper than it has nodes.
    pub fn insert(nodes: &mut Vec<Node>, cur: usize, new_node: Node)
        requires
            well_linked(limbs(old(nodes)@)),
            cur < old(nodes)@.len(),
            linked(limbs(old(nodes)@), new_node.left),
            linked(limbs(old(nodes)@), new_node.right),
        ensures
            well_linked(limbs(final(nodes)@)),
            final(nodes)@.len() >= old(nodes)@.len(),
            limbs(final(nodes)@) == grown(
                limbs(old(nodes)@),
                slot(limbs(old(nodes)@), cur, new_node.rank, old(nodes)@.len()),
                new_node@,
            ),
    {
        let ghost before = limbs(nodes@);
        let at = nodes.len();
        match find_slot(nodes, cur, new_node.rank) {
            Place::Under { parent, left } => {
                nodes.push(new_node);
                let ghost mid = limbs(nodes@);
                assert(mid =~= before.push(new_node@));
                let above = &nodes[parent];
                let linked_node = if left {
                    Node {
                        id: above.id,
                        rank: above.rank,
                        symbol: copy_of(&above.symbol),
                        left: Some(at),
                        right: above.right,
                    }
                } else {
                    Node {
                        id: above.id,
                        rank: above.rank,
                        symbol: copy_of(&above.symbol),
                        left: above.left,
                        right: Some(at),
                    }
                };
                nodes.set(parent, linked_node);
                proof {
                    assert(mid[parent as int] == before[parent as int]);
                    assert(limbs(nodes@) =~= grown(before, Place::Under { parent, left }, new_node@));
                    assert forall|i: int| 0 <= i < limbs(nodes@).len() implies linked(
                        limbs(nodes@),
                        (#[trigger] limbs(nodes@)[i]).left,
                    ) && linked(limbs(nodes@), limbs(nodes@)[i].right) by {
                        if i < before.len() && i != parent {
                            assert(limbs(nodes@)[i] == before[i]);
                        }
                    }
                }
            },
            _ => {},
        }
    }
}

/// The nodes named `id` that are found through a pointer, at most
/// `fuel` nodes deep: the node it points to if that is named so, else
/// those found below it.
pub open spec fn found_through(nodes: Seq<Limb>, link: Option<usize>, id: usize, fuel: nat) -> Seq<
    usize,
>
    decreases fuel, 0nat,
{
    match link {
        Some(c) => if nodes[c as int].id == id {
            seq![c]
        } else if fuel == 0 {
            Seq::empty()
        } else {
            found_below(nodes, c, id, (fuel - 1) as nat)
        },
        None => Seq::empty(),
    }
}

/// The nodes named `id` that are found below a node, those to its left
/// first. Below a node of that name nothing is looked for.
pub open spec fn found_below(nodes: Seq<Limb>, cur: usize, id: usize, fuel: nat) -> Seq<usize>
    decreases fuel, 1nat,
{
    found_through(nodes, nodes[cur as int].left, id, fuel) + found_through(
        nodes,
        nodes[cur as int].right,
        id,
        fuel,
    )
}

/// The nodes named `id` that are found in a tree: its root if that is
/// named so, and those found below the root.
pub open spec fn found_in(nodes: Seq<Limb>, root: Option<usize>, id: usize) -> Seq<usize> {
    match root {
        Some(r) => (if nodes[r as int].id == id {
            seq![r]
        } else {
            Seq::empty()
        }) + found_below(nodes, r, id, nodes.len()),
        None => Seq::empty(),
    }
}

/// Adds to `out` the nodes named `id` that are found through a pointer.
fn find_through(nodes: &Vec<Node>, link: Option<usize>, id: usize, fuel: usize, out: &mut Vec<usize>)
    requires
        well_linked(limbs(nodes@)),
        linked(limbs(nodes@), link),
    ensures
        final(out)@ == old(out)@ + found_through(limbs(nodes@), link, id, fuel as nat),
        forall|k: int| 0 <= k < final(out)@.len() && k >= old(out)@.len() ==> final(out)@[k] < nodes@.len(),
    decreases fuel, 0nat,
{
    match link {
        Some(c) => {
            assert(limbs(nodes@)[c as int] == nodes@[c as int]@);
            if nodes[c].id == id {
                out.push(c);
                assert(out@ =~= old(out)@ + seq![c]);
            } else if fuel > 0 {
                find_below(nodes, c, id, fuel - 1, out);
            } else {
                assert(out@ =~= old(out)@ + Seq::<usize>::empty());
            }
        },
        None => {
            assert(out@ =~= old(out)@ + Seq::<usize>::empty());
        },
    }
}

/// Adds to `out` the nodes named `id` that are found below a node.
fn find_below(nodes: &Vec<Node>, cur: usize, id: usize, fuel: usize, out: &mut Vec<usize>)
    requires
        well_linked(limbs(nodes@)),
        cur < nodes@.len(),
    ensures
        final(out)@ == old(out)@ + found_below(limbs(nodes@), cur, id, fuel as nat),
        forall|k: int| 0 <= k < final(out)@.len() && k >= old(out)@.len() ==> final(out)@[k] < nodes@.len(),
    decreases fuel, 1nat,
{
    let ghost view = limbs(nodes@);
    assert(view[cur as int] == nodes@[cur as int]@);
    find_through(nodes, nodes[cur].left, id, fuel, out);
    find_through(nodes, nodes[cur].right, id, fuel, out);
    assert(out@ =~= old(out)@ + (found_through(view, view[cur as int].left, id, fuel as nat)
        + found_through(view, view[cur as int].right, id, fuel as nat)));
}

impl Node {
    /// The places of the nodes named `id` below the node at `cur`.
    pub fn find_id(nodes: &Vec<Node>, cur: usize, id: usize) -> (found: Vec<usize>)
        requires
            well_linked(limbs(nodes@)),
            cur < nodes@.len(),
        ensures
            found@ == found_below(limbs(nodes@), cur, id, nodes@.len()),
            forall|k: int| 0 <= k < found@.len() ==> found@[k] < nodes@.len(),
    {
        let mut found: Vec<usize> = Vec::new();
        find_below(nodes, cur, id, nodes.len(), &mut found);
        assert(found@ =~= found_below(limbs(nodes@), cur, id, nodes@.len()));
        found
    }
}

impl Tree {
    /// The places of the nodes named `id` in the tree.
    pub fn find_id(&self, nodes: &Vec<Node>, id: usize) -> (found: Vec<usize>)
        requires
            well_linked(limbs(nodes@)),
            linked(limbs(nodes@), self.root),
        ensures
            found@ == found_in(limbs(nodes@), self.root, id),
            forall|k: int| 0 <= k < found@.len() ==> found@[k] < nodes@.len(),
    {
        let mut found: Vec<usize> = Vec::new();
        match self.root {
            Some(r) => {
                assert(limbs(nodes@)[r as int] == nodes@[r as int]@);
                if nodes[r].id == id {
                    found.push(r);
                }
                find_below(nodes, r, id, nodes.len(), &mut found);
                assert(found@ =~= found_in(limbs(nodes@), self.root, id));
            },
            None => {},
        }
        found
    }
}

/// The nodes after the nodes at `a` and `b` have changed places: they
/// exchange rank and symbol, and their children too when the mode is deep.
pub open spec fn swapped(nodes: Seq<Limb>, a: usize, b: usize, mode: SwapMode) -> Seq<Limb> {
    let first = nodes[a as int];
    let second = nodes[b as int];
    match mode {
        SwapMode::Shallow => nodes.update(
            a as int,
            Limb { rank: second.rank, symbol: second.symbol, ..first },
        ).update(b as int, Limb { rank: first.rank, symbol: first.symbol, ..second }),
        SwapMode::Deep => nodes.update(a as int, Limb { id: first.id, ..second }).update(
            b as int,
            Limb { id: second.id, ..first },
        ),
    }
}

/// The twins named `id`: the two nodes of that name found in the two
/// trees, the first tree searched first, if there are two and they
/// differ.
pub open spec fn twins(nodes: Seq<Limb>, one: Tree, other: Tree, id: usize) -> Option<(usize, usize)> {
    let found = found_in(nodes, one.root, id) + found_in(nodes, other.root, id);
    if found.len() == 2 && found[0] != found[1] {
        Some((found[0], found[1]))
    } else {
        None
    }
}

impl Node {
    /// Lets the nodes at `a` and `b` change places.
    pub fn swap(nodes: &mut Vec<Node>, a: usize, b: usize, mode: SwapMode)
        requires
            well_linked(limbs(old(nodes)@)),
            a < old(nodes)@.len(),
            b < old(nodes)@.len(),
            a != b,
        ensures
            well_linked(limbs(final(nodes)@)),
            final(nodes)@.len() == old(nodes)@.len(),
            limbs(final(nodes)@) == swapped(limbs(old(nodes)@), a, b, mode),
    {
        let ghost before = limbs(nodes@);
        assert(before[a as int] == nodes@[a as int]@);
        assert(before[b as int] == nodes@[b as int]@);
        let first = &nodes[a];
        let second = &nodes[b];
        let (new_a, new_b) = match mode {
            SwapMode::Shallow => (
                Node {
                    id: first.id,
                    rank: second.rank,
                    symbol: copy_of(&second.symbol),
                    left: first.left,
                    right: first.right,
                },
                Node {
                    id: second.id,
                    rank: first.rank,
                    symbol: copy_of(&first.symbol),
                    left: second.left,
                    right: second.right,
                },
            ),
            SwapMode::Deep => (
                Node {
                    id: first.id,
                    rank: second.rank,
                    symbol: copy_of(&second.symbol),
                    left: second.left,
                    right: second.right,
                },
                Node {
                    id: second.id,
                    rank: first.rank,
                    symbol: copy_of(&first.symbol),
                    left: first.left,
                    right: first.right,
                },
            ),
        };
        nodes.set(a, new_a);
        nodes.set(b, new_b);
        proof {
            assert(limbs(nodes@) =~= swapped(before, a, b, mode));
            assert forall|i: int| 0 <= i < limbs(nodes@).len() implies linked(
                limbs(nodes@),
                (#[trigger] limbs(nodes@)[i]).left,
            ) && linked(limbs(nodes@), limbs(nodes@)[i].right) by {
                assert(linked(before, before[a as int].left) && linked(before, before[a as int].right));
                assert(linked(before, before[b as int].left) && linked(before, before[b as int].right));
                if i != a && i != b {
                    assert(limbs(nodes@)[i] == before[i]);
                }
            }
        }
    }
}

impl Tree {
    /// Lets the twins named `id` change places. Two nodes of that name
    /// have to be found in the two trees; `try_swap` tells whether
    /// they are.
    pub fn swap(&self, other: &Tree, nodes: &mut Vec<Node>, id: usize, mode: SwapMode)
        requires
            well_linked(limbs(old(nodes)@)),
            linked(limbs(old(nodes)@), self.root),
            linked(limbs(old(nodes)@), other.root),
            twins(limbs(old(nodes)@), *self, *other, id) is Some,
        ensures
            well_linked(limbs(final(nodes)@)),
            final(nodes)@.len() == old(nodes)@.len(),
            limbs(final(nodes)@) == swapped(
                limbs(old(nodes)@),
                twins(limbs(old(nodes)@), *self, *other, id).unwrap().0,
                twins(limbs(old(nodes)@), *self, *other, id).unwrap().1,
                mode,
            ),
    {
        let done = self.try_swap(other, nodes, id, mode);
        assert(done);
    }

    /// Lets the twins named `id` change places. Returns whether they
    /// did: nothing changes unless two nodes of that name are found.
    pub fn try_swap(&self, other: &Tree, nodes: &mut Vec<Node>, id: usize, mode: SwapMode) -> (done:
        bool)
        requires
            well_linked(limbs(old(nodes)@)),
            linked(limbs(old(nodes)@), self.root),
            linked(limbs(old(nodes)@), other.root),
        ensures
            well_linked(limbs(final(nodes)@)),
            final(nodes)@.len() == old(nodes)@.len(),
            match twins(limbs(old(nodes)@), *self, *other, id) {
                Some((a, b)) => done && limbs(final(nodes)@) == swapped(
                    limbs(old(nodes)@),
                    a,
                    b,
                    mode,
                ),
                None => !done && limbs(final(nodes)@) == limbs(old(nodes)@),
            },
    {
        let mut found = self.find_id(nodes, id);
        let ghost first = found@;
        let mut more = other.find_id(nodes, id);
        let ghost second = more@;
        found.append(&mut more);
        assert(found@ =~= first + second);
        if found.len() == 2 && found[0] != found[1] {
            Node::swap(nodes, found[0], found[1], mode);
            true
        } else {
            false
        }
    }
}

/// The symbols of the nodes `depth` levels below a pointer, from
/// left to right.
pub open spec fn row_at(nodes: Seq<Limb>, link: Option<usize>, depth: nat) -> Seq<char>
    decreases depth,
{
    match link {
        Some(c) => if depth == 0 {
            nodes[c as int].symbol
        } else {
            row_at(nodes, nodes[c as int].left, (depth - 1) as nat) + row_at(
                nodes,
                nodes[c as int].right,
                (depth - 1) as nat,
            )
        },
        None => Seq::empty(),
    }
}

/// A node stands `depth` levels below the pointer.
pub open spec fn peopled(nodes: Seq<Limb>, link: Option<usize>, depth: nat) -> bool
    decreases depth,
{
    match link {
        Some(c) => depth == 0 || peopled(nodes, nodes[c as int].left, (depth - 1) as nat) || peopled(
            nodes,
            nodes[c as int].right,
            (depth - 1) as nat,
        ),
        None => false,
    }
}

/// How many bytes a character takes when written.
pub open spec fn width_of(c: char) -> nat {
    if (c as u32) < 0x80 {
        1
    } else if (c as u32) < 0x800 {
        2
    } else if (c as u32) < 0x1_0000 {
        3
    } else {
        4
    }
}

/// How many bytes a text takes when written.
pub open spec fn bytes_of(text: Seq<char>) -> nat
    decreases text.len(),
{
    if text.len() == 0 {
        0
    } else {
        bytes_of(text.drop_last()) + width_of(text.last())
    }
}

/// Level `d` of the tree is chosen over level `e`: its symbols take
/// more bytes, or as many and it is not the lower one.
pub open spec fn beats(nodes: Seq<Limb>, root: Option<usize>, d: nat, e: nat) -> bool {
    bytes_of(row_at(nodes, root, d)) > bytes_of(row_at(nodes, root, e)) || (bytes_of(
        row_at(nodes, root, d),
    ) == bytes_of(row_at(nodes, root, e)) && d <= e)
}

/// Level `d` is the one chosen among the first `levels` levels of the
/// tree that hold a node.
pub open spec fn is_best(nodes: Seq<Limb>, root: Option<usize>, d: nat, levels: nat) -> bool {
    &&& d < levels
    &&& peopled(nodes, root, d)
    &&& forall|e: nat| e < levels && #[trigger] peopled(nodes, root, e) ==> beats(nodes, root, d, e)
}

/// One level only is chosen.
pub proof fn lemma_best_unique(nodes: Seq<Limb>, root: Option<usize>, d: nat, e: nat, levels: nat)
    requires
        is_best(nodes, root, d, levels),
        is_best(nodes, root, e, levels),
    ensures
        d == e,
{
    assert(beats(nodes, root, d, e));
    assert(beats(nodes, root, e, d));
}

/// Adds to `out` the symbols of the nodes `depth` levels below a
/// pointer, and returns whether a node stands there.
fn row_of(nodes: &Vec<Node>, link: Option<usize>, depth: usize, out: &mut Vec<char>) -> (any: bool)
    requires
        well_linked(limbs(nodes@)),
        linked(limbs(nodes@), link),
    ensures
        final(out)@ == old(out)@ + row_at(limbs(nodes@), link, depth as nat),
        any == peopled(limbs(nodes@), link, depth as nat),
    decreases depth,
{
    let ghost view = limbs(nodes@);
    match link {
        Some(c) => {
            assert(view[c as int] == nodes@[c as int]@);
            if depth == 0 {
                let mut k: usize = 0;
                while k < nodes[c].symbol.len()
                    invariant
                        0 <= k <= nodes@[c as int].symbol@.len(),
                        c < nodes@.len(),
                        out@ == old(out)@ + nodes@[c as int].symbol@.take(k as int),
                    decreases nodes@[c as int].symbol@.len() - k,
                {
                    out.push(nodes[c].symbol[k]);
                    assert(out@ =~= old(out)@ + nodes@[c as int].symbol@.take(k + 1));
                    k += 1;
                }
                assert(nodes@[c as int].symbol@.take(k as int) =~= nodes@[c as int].symbol@);
                true
            } else {
                let left = row_of(nodes, nodes[c].left, depth - 1, out);
                let right = row_of(nodes, nodes[c].right, depth - 1, out);
                assert(out@ =~= old(out)@ + (row_at(view, view[c as int].left, (depth - 1) as nat)
                    + row_at(view, view[c as int].right, (depth - 1) as nat)));
                left || right
            }
        },
        None => {
            assert(out@ =~= old(out)@ + Seq::<char>::empty());
            false
        },
    }
}

/// Counts the bytes that a text takes when written.
pub fn byte_len(text: &Vec<char>) -> (len: u128)
    ensures
        len == bytes_of(text@),
{
    let mut len: u128 = 0;
    let mut k: usize = 0;
    while k < text.len()
        invariant
            0 <= k <= text.len(),
            len == bytes_of(text@.take(k as int)),
            len <= 4 * k,
        decreases text.len() - k,
    {
        let c = text[k];
        proof {
            let next = text@.take(k + 1);
            assert(next.drop_last() =~= text@.take(k as int));
            assert(next.last() == c);
        }
        let code = c as u32;
        len += if code < 0x80 {
            1
        } else if code < 0x800 {
            2
        } else if code < 0x1_0000 {
            3
        } else {
            4
        };
        k += 1;
    }
    assert(text@.take(k as int) =~= text@);
    len
}

impl Tree {
    /// The symbols of the level of the tree that takes the most bytes
    /// when written, from left to right; of levels that take as many,
    /// the one nearest the root. The levels are looked at as deep as
    /// there are nodes. The tree has to have a node.
    pub fn get_level(&self, nodes: &Vec<Node>) -> (text: Vec<char>)
        requires
            well_linked(limbs(nodes@)),
            linked(limbs(nodes@), self.root),
            self.root is Some,
        ensures
            exists|d: nat|
                is_best(limbs(nodes@), self.root, d, nodes@.len()) && text@ == row_at(
                    limbs(nodes@),
                    self.root,
                    d,
                ),
    {
        self.level(nodes).unwrap()
    }

    /// The symbols of the level that `get_level` chooses; `None` when
    /// the tree has no node.
    pub fn level(&self, nodes: &Vec<Node>) -> (level: Option<Vec<char>>)
        requires
            well_linked(limbs(nodes@)),
            linked(limbs(nodes@), self.root),
        ensures
            match level {
                Some(text) => exists|d: nat|
                    is_best(limbs(nodes@), self.root, d, nodes@.len()) && text@ == row_at(
                        limbs(nodes@),
                        self.root,
                        d,
                    ),
                None => self.root.is_none(),
            },
    {
        let ghost view = limbs(nodes@);
        let n = nodes.len();
        let mut best: Option<Vec<char>> = None;
        let mut most: u128 = 0;
        let ghost mut at: nat = 0;
        let mut d: usize = 0;
        while d < n
            invariant
                0 <= d <= n,
                n == nodes@.len(),
                view == limbs(nodes@),
                well_linked(view),
                linked(view, self.root),
                match best {
                    Some(text) => is_best(view, self.root, at, d as nat) && text@ == row_at(
                        view,
                        self.root,
                        at,
                    ) && most == bytes_of(text@),
                    None => forall|e: nat| e < d ==> !#[trigger] peopled(view, self.root, e),
                },
            decreases n - d,
        {
            let mut row: Vec<char> = Vec::new();
            let any = row_of(nodes, self.root, d, &mut row);
            assert(row@ =~= row_at(view, self.root, d as nat));
            if any {
                let len = byte_len(&row);
                let better = match best {
                    Some(_) => len > most,
                    None => true,
                };
                if better {
                    proof {
                        assert forall|e: nat|
                            e < d + 1 && #[trigger] peopled(view, self.root, e) implies beats(
                            view,
                            self.root,
                            d as nat,
                            e,
                        ) by {
                            if e < d {
                                if best is Some {
                                    assert(beats(view, self.root, at, e));
                                }
                            }
                        }
                        at = d as nat;
                    }
                    best = Some(row);
                    most = len;
                } else {
                    proof {
                        assert forall|e: nat|
                            e < d + 1 && #[trigger] peopled(view, self.root, e) implies beats(
                            view,
                            self.root,
                            at,
                            e,
                        ) by {
                            if e < d {
                                assert(is_best(view, self.root, at, d as nat));
                            }
                        }
                    }
                }
            } else {
                proof {
                    if best is Some {
                        assert forall|e: nat|
                            e < d + 1 && #[trigger] peopled(view, self.root, e) implies beats(
                            view,
                            self.root,
                            at,
                            e,
                        ) by {
                            assert(is_best(view, self.root, at, d as nat));
                        }
                    }
                }
            }
            d += 1;
        }
        proof {
            if best.is_none() && self.root is Some {
                assert(peopled(view, self.root, 0));
            }
        }
        best
    }
}

/// The two trees as they grow: the nodes of both, and their roots.
pub struct Growth {
    pub nodes: Seq<Limb>,
    pub one: Option<usize>,
    pub other: Option<usize>,
}

/// The trees after a step; `None` when twins are to change places and
/// no two nodes of that name are found.
pub open spec fn after_order(before: Growth, order: Order, mode: SwapMode) -> Option<Growth> {
    match order {
        Order::Add { id, left_rank, left_symbol, right_rank, right_symbol } => {
            let first = added(before.nodes, before.one, leaf(id, left_rank, left_symbol));
            let second = added(first.0, before.other, leaf(id, right_rank, right_symbol));
            Some(Growth { nodes: second.0, one: first.1, other: second.1 })
        },
        Order::Swap { id } => match twins(
            before.nodes,
            Tree { root: before.one },
            Tree { root: before.other },
            id,
        ) {
            Some((a, b)) => Some(Growth { nodes: swapped(before.nodes, a, b, mode), ..before }),
            None => None,
        },
    }
}

/// The trees after the first `upto` steps.
pub open spec fn after_orders(orders: Seq<Order>, upto: nat, mode: SwapMode) -> Option<Growth>
    decreases upto,
{
    if upto == 0 {
        Some(Growth { nodes: Seq::empty(), one: None, other: None })
    } else {
        match after_orders(orders, (upto - 1) as nat, mode) {
            Some(before) => after_order(before, orders[upto - 1], mode),
            None => None,
        }
    }
}

/// Once a step cannot be taken, the steps after it are not taken.
pub proof fn lemma_orders_fail(orders: Seq<Order>, k: nat, upto: nat, mode: SwapMode)
    requires
        k <= upto,
        after_orders(orders, k, mode).is_none(),
    ensures
        after_orders(orders, upto, mode).is_none(),
    decreases upto,
{
    if k < upto {
        lemma_orders_fail(orders, k, (upto - 1) as nat, mode);
    }
}

/// Takes the steps one after the other, on two trees that start
/// without nodes. Returns the nodes and the two trees, or `None` when
/// twins are to change places and no two nodes of that name are found.
pub fn grow(commands: &Vec<Command>, mode: SwapMode) -> (grown: Option<(Vec<Node>, Tree, Tree)>)
    ensures
        match grown {
            Some((nodes, one, other)) => well_linked(limbs(nodes@)) && linked(
                limbs(nodes@),
                one.root,
            ) && linked(limbs(nodes@), other.root) && after_orders(
                orders_view(commands@),
                commands@.len(),
                mode,
            ) == Some(Growth { nodes: limbs(nodes@), one: one.root, other: other.root }),
            None => after_orders(orders_view(commands@), commands@.len(), mode).is_none(),
        },
{
    let ghost orders = orders_view(commands@);
    let mut nodes: Vec<Node> = Vec::new();
    let mut one = Tree::new();
    let mut other = Tree::new();
    assert(limbs(nodes@) =~= Seq::<Limb>::empty());
    let mut k: usize = 0;
    while k < commands.len()
        invariant
            0 <= k <= commands.len(),
            orders == orders_view(commands@),
            well_linked(limbs(nodes@)),
            linked(limbs(nodes@), one.root),
            linked(limbs(nodes@), other.root),
            after_orders(orders, k as nat, mode) == Some(
                Growth { nodes: limbs(nodes@), one: one.root, other: other.root },
            ),
        decreases commands.len() - k,
    {
        assert(orders[k as int] == commands@[k as int]@);
        match &commands[k] {
            Command::Add { id, left_rank, left_symbol, right_rank, right_symbol } => {
                one.add(&mut nodes, *id, *left_rank, copy_of(left_symbol));
                other.add(&mut nodes, *id, *right_rank, copy_of(right_symbol));
            },
            Command::Swap { id } => {
                if !one.try_swap(&other, &mut nodes, *id, mode) {
                    proof {
                        assert(after_orders(orders, (k + 1) as nat, mode).is_none());
                        lemma_orders_fail(orders, (k + 1) as nat, commands@.len(), mode);
                    }
                    return None;
                }
            },
        }
        k += 1;
    }
    Some((nodes, one, other))
}

/// Reads the steps, takes them, and returns the chosen level of the
/// first tree followed by that of the second. The text has to spell
/// steps that can be taken and that leave no tree without nodes;
/// `try_run` tells whether it does.
pub fn run(input: &str, mode: SwapMode) -> (written: String)
    requires
        grown_from(input@, mode) is Some,
        grown_from(input@, mode).unwrap().one is Some,
    ensures
        levels_shown(grown_from(input@, mode).unwrap(), written@),
{
    try_run(input, mode).unwrap()
}

/// Reads the steps, takes them, and returns the chosen level of the
/// first tree followed by that of the second. `None` when a line
/// spells no step, when twins that are to change places are not
/// found, or when a tree is left without nodes.
pub fn try_run(input: &str, mode: SwapMode) -> (levels: Option<String>)
    ensures
        match levels {
            Some(text) => grown_from(input@, mode) is Some && levels_shown(
                grown_from(input@, mode).unwrap(),
                text@,
            ),
            None => grown_from(input@, mode).is_none() || grown_from(
                input@,
                mode,
            ).unwrap().one.is_none(),
        },
{
    let commands = match read(input) {
        Some(c) => c,
        None => {
            return None;
        },
    };
    let (nodes, one, other) = match grow(&commands, mode) {
        Some(g) => g,
        None => {
            return None;
        },
    };
    let ghost end = Growth { nodes: limbs(nodes@), one: one.root, other: other.root };
    assert(orders_view(commands@).len() == commands@.len());
    assert(end.nodes.len() == nodes@.len());
    let mut both = match one.level(&nodes) {
        Some(t) => t,
        None => {
            return None;
        },
    };
    let ghost first = both@;
    let mut second = match other.level(&nodes) {
        Some(t) => t,
        None => {
            proof {
                lemma_roots_together(orders_view(commands@), commands@.len(), mode);
                assert(orders_view(commands@).len() == commands@.len());
            }
            return None;
        },
    };
    let ghost last = second@;
    both.append(&mut second);
    proof {
        let d = choose|d: nat|
            is_best(end.nodes, end.one, d, end.nodes.len()) && first == row_at(end.nodes, end.one, d);
        let e = choose|e: nat|
            is_best(end.nodes, end.other, e, end.nodes.len()) && last == row_at(
                end.nodes,
                end.other,
                e,
            );
        assert(both@ =~= first + last);
        assert(shows_levels(end, d, e, both@));
        assert(orders_view(commands@).len() == commands@.len());
        assert(grown_from(input@, mode) == Some(end));
    }
    let written = text_of(&both);
    assert(shows_levels(end, d_of(end, first), e_of(end, last), written@));
    assert(levels_shown(end, written@));
    Some(written)
}

/// The trees that grow from the steps that a text spells.
pub open spec fn grown_from(input: Seq<char>, mode: SwapMode) -> Option<Growth> {
    match orders_of(lines(input)) {
        Some(orders) => after_orders(orders, orders.len(), mode),
        None => None,
    }
}

/// A level of the first tree that is chosen and holds the text.
pub open spec fn d_of(end: Growth, text: Seq<char>) -> nat {
    choose|d: nat|
        is_best(end.nodes, end.one, d, end.nodes.len()) && text == row_at(end.nodes, end.one, d)
}

/// A level of the second tree that is chosen and holds the text.
pub open spec fn e_of(end: Growth, text: Seq<char>) -> nat {
    choose|e: nat|
        is_best(end.nodes, end.other, e, end.nodes.len()) && text == row_at(end.nodes, end.other, e)
}

/// The text holds level `d` of the first tree followed by level `e` of
/// the second, and these are the levels chosen.
pub open spec fn shows_levels(end: Growth, d: nat, e: nat, text: Seq<char>) -> bool {
    &&& is_best(end.nodes, end.one, d, end.nodes.len())
    &&& is_best(end.nodes, end.other, e, end.nodes.len())
    &&& text == row_at(end.nodes, end.one, d) + row_at(end.nodes, end.other, e)
}

/// The text holds the chosen level of the first tree followed by that
/// of the second.
pub open spec fn levels_shown(end: Growth, text: Seq<char>) -> bool {
    exists|d: nat, e: nat| shows_levels(end, d, e, text)
}

/// The two trees get their roots together.
pub proof fn lemma_roots_together(orders: Seq<Order>, upto: nat, mode: SwapMode)
    ensures
        after_orders(orders, upto, mode) is Some ==> (after_orders(
            orders,
            upto,
            mode,
        ).unwrap().one.is_none() <==> after_orders(orders, upto, mode).unwrap().other.is_none()),
    decreases upto,
{
    if upto > 0 {
        lemma_roots_together(orders, (upto - 1) as nat, mode);
    }
}

} // verus!
