use state_search::twins::{
    byte_len, find_slot, grow, parse_command, parse_node_data, read, run, try_run, Command, Node,
    Place, SwapMode, Tree,
};

fn cs(text: &str) -> Vec<char> {
    text.chars().collect()
}

const SEVEN: &str = "ADD id=1 left=[10,A] right=[30,H]
ADD id=2 left=[15,D] right=[25,I]
ADD id=3 left=[12,F] right=[31,J]
ADD id=4 left=[5,B] right=[27,L]
ADD id=5 left=[3,C] right=[28,M]
ADD id=6 left=[20,G] right=[32,K]
ADD id=7 left=[4,E] right=[21,N]";

const SWAPS: &str = "ADD id=1 left=[10,A] right=[30,H]
ADD id=2 left=[15,D] right=[25,I]
ADD id=3 left=[12,F] right=[31,J]
ADD id=4 left=[5,B] right=[27,L]
ADD id=5 left=[3,C] right=[28,M]
SWAP 1
SWAP 5
ADD id=6 left=[20,G] right=[32,K]
ADD id=7 left=[4,E] right=[21,N]";

const MORE_SWAPS: &str = "ADD id=1 left=[10,A] right=[30,H]
ADD id=2 left=[15,D] right=[25,I]
ADD id=3 left=[12,F] right=[31,J]
ADD id=4 left=[5,B] right=[27,L]
ADD id=5 left=[3,C] right=[28,M]
SWAP 1
SWAP 5
ADD id=6 left=[20,G] right=[32,K]
ADD id=7 left=[4,E] right=[21,N]
SWAP 2
SWAP 3
ADD id=8 left=[7,Q] right=[26,R]
SWAP 5
SWAP 8";

#[test]
fn steps_are_read_line_by_line() {
    assert_eq!(
        parse_command(&cs("ADD id=1 left=[10,A] right=[30,H]")),
        Some(Command::Add {
            id: 1,
            left_rank: 10,
            left_symbol: cs("A"),
            right_rank: 30,
            right_symbol: cs("H")
        })
    );
    assert_eq!(parse_command(&cs("  SWAP   17 ")), Some(Command::Swap { id: 17 }));
    assert_eq!(parse_command(&cs("SWAP")), None);
    assert_eq!(parse_command(&cs("SWAP x")), None);
    assert_eq!(parse_command(&cs("DROP 1")), None);
    assert_eq!(parse_command(&cs("ADD id=1 left=[10,A]")), None);
    assert_eq!(parse_command(&cs("ADD 1 left=[10,A] right=[30,H]")), None);
    assert_eq!(parse_command(&cs("ADD id=1 left=[10, A] right=[30,H]")), None);
    assert_eq!(parse_command(&cs("ADD id=1 right=[10,A] left=[30,H]")), None);
    assert_eq!(parse_command(&cs("")), None);
    assert_eq!(read(SWAPS).unwrap().len(), 9);
    assert_eq!(read(SWAPS).unwrap()[5], Command::Swap { id: 1 });
    assert!(read("SWAP 1\nnothing").is_none());
    assert_eq!(read("").unwrap().len(), 0);
}

#[test]
fn rank_and_symbol_with_or_without_brackets() {
    assert_eq!(parse_node_data(&cs("[7,X]")), Some((7, cs("X"))));
    assert_eq!(parse_node_data(&cs("7,X")), Some((7, cs("X"))));
    assert_eq!(parse_node_data(&cs("[7,X")), Some((7, cs("X"))));
    assert_eq!(parse_node_data(&cs("7,X]")), Some((7, cs("X"))));
    assert_eq!(parse_node_data(&cs("[7,X,Y]")), Some((7, cs("X,Y"))));
    assert_eq!(parse_node_data(&cs("[ 7 , X ]")), Some((7, cs("X"))));
    assert_eq!(parse_node_data(&cs("[7,]")), Some((7, cs(""))));
    assert_eq!(parse_node_data(&cs("[7]")), None);
    assert_eq!(parse_node_data(&cs("[x,A]")), None);
    assert_eq!(parse_node_data(&cs("[-1,A]")), None);
}

#[test]
fn steps_that_can_be_taken_give_the_levels_as_they_stand() {
    assert_eq!(run(SEVEN, SwapMode::Shallow), "CFGNLK");
    assert_eq!(run(SWAPS, SwapMode::Deep), "IJMFK");
    assert_eq!(run("ADD id=1 left=[1,a] right=[2,b]\nSWAP 1", SwapMode::Shallow), "ba");
}

#[test]
fn levels_of_trees_that_only_grow() {
    assert_eq!(try_run(SEVEN, SwapMode::Shallow), Some("CFGNLK".to_string()));
    assert_eq!(try_run(SEVEN, SwapMode::Deep), Some("CFGNLK".to_string()));
}

#[test]
fn levels_after_twins_changed_places() {
    assert_eq!(try_run(SWAPS, SwapMode::Shallow), Some("MGFLNK".to_string()));
    assert_eq!(try_run(SWAPS, SwapMode::Deep), Some("IJMFK".to_string()));
    assert_eq!(try_run(MORE_SWAPS, SwapMode::Deep), Some("DFCGL".to_string()));
    assert_eq!(try_run(MORE_SWAPS, SwapMode::Shallow), Some("CGJLNK".to_string()));
}

#[test]
fn level_is_chosen_by_bytes_then_by_depth() {
    assert_eq!(try_run("ADD id=1 left=[1,ab] right=[2,\u{e9}]", SwapMode::Shallow), Some("ab\u{e9}".to_string()));
    let text = "ADD id=1 left=[5,a] right=[5,x]\nADD id=2 left=[3,\u{e9}] right=[7,yy]\nADD id=3 left=[8,c] right=[3,z]";
    assert_eq!(try_run(text, SwapMode::Shallow), Some("\u{e9}czyy".to_string()));
    assert_eq!(byte_len(&cs("a\u{e9}\u{20ac}\u{1f600}")), 10);
    assert_eq!(byte_len(&cs("")), 0);
}

#[test]
fn node_whose_rank_is_taken_is_dropped() {
    let text = "ADD id=1 left=[5,a] right=[5,x]\nADD id=2 left=[3,b] right=[7,y]\nADD id=3 left=[5,c] right=[3,z]\nADD id=4 left=[8,dd] right=[9,w]";
    assert_eq!(try_run(text, SwapMode::Shallow), Some("bddzy".to_string()));
    let (nodes, one, other) = grow(&read(text).unwrap(), SwapMode::Shallow).unwrap();
    assert_eq!(nodes.len(), 7);
    assert_eq!(one.find_id(&nodes, 3), Vec::<usize>::new());
    assert_eq!(other.find_id(&nodes, 3).len(), 1);
    assert_eq!(find_slot(&nodes, one.root.unwrap(), 5), Place::Taken);
    assert_eq!(find_slot(&nodes, one.root.unwrap(), 3), Place::Taken);
    assert_eq!(find_slot(&nodes, one.root.unwrap(), 4), Place::Under { parent: 2, left: false });
    assert_eq!(find_slot(&nodes, one.root.unwrap(), 1), Place::Under { parent: 2, left: true });
}

#[test]
fn swap_needs_two_nodes_of_the_name() {
    assert_eq!(try_run("SWAP 1", SwapMode::Shallow), None);
    assert_eq!(try_run("ADD id=1 left=[1,a] right=[2,b]\nSWAP 2", SwapMode::Shallow), None);
    assert_eq!(try_run("ADD id=1 left=[1,a] right=[2,b]\nSWAP 1", SwapMode::Shallow), Some("ba".to_string()));
    let thrice = "ADD id=1 left=[5,a] right=[5,x]\nADD id=1 left=[3,b] right=[7,y]\nSWAP 1";
    assert_eq!(try_run(thrice, SwapMode::Shallow), None);
    let lonely = "ADD id=1 left=[5,a] right=[5,x]\nADD id=2 left=[5,b] right=[7,y]\nSWAP 2";
    assert_eq!(try_run(lonely, SwapMode::Shallow), None);
    assert_eq!(try_run("", SwapMode::Shallow), None);
    assert_eq!(try_run("ADD id=1 left=[1,a]", SwapMode::Deep), None);
}

#[test]
fn nodes_below_a_match_are_not_searched() {
    let mut nodes: Vec<Node> = Vec::new();
    let mut tree = Tree::new();
    tree.add(&mut nodes, 1, 10, cs("a"));
    tree.add(&mut nodes, 2, 5, cs("b"));
    tree.add(&mut nodes, 2, 3, cs("c"));
    tree.add(&mut nodes, 1, 20, cs("d"));
    tree.add(&mut nodes, 1, 30, cs("e"));
    assert_eq!(tree.root, Some(0));
    assert_eq!(nodes[0].left, Some(1));
    assert_eq!(nodes[1].left, Some(2));
    assert_eq!(nodes[0].right, Some(3));
    assert_eq!(nodes[3].right, Some(4));
    assert_eq!(tree.find_id(&nodes, 2), vec![1]);
    assert_eq!(tree.find_id(&nodes, 1), vec![0, 3]);
    assert_eq!(Node::find_id(&nodes, 0, 1), vec![3]);
    assert_eq!(Node::find_id(&nodes, 3, 1), vec![4]);
    assert_eq!(tree.find_id(&nodes, 9), Vec::<usize>::new());
    assert_eq!(Tree::new().find_id(&nodes, 1), Vec::<usize>::new());
    assert_eq!(tree.get_level(&nodes), cs("bd"));
    assert_eq!(tree.level(&nodes), Some(cs("bd")));
    assert_eq!(Tree::new().level(&nodes), None);
}

#[test]
fn twins_exchange_rank_and_symbol_or_children_too() {
    let mut nodes: Vec<Node> = Vec::new();
    let mut one = Tree::new();
    let mut other = Tree::new();
    one.add(&mut nodes, 1, 10, cs("a"));
    other.add(&mut nodes, 1, 20, cs("x"));
    one.add(&mut nodes, 2, 5, cs("b"));
    other.add(&mut nodes, 2, 30, cs("y"));
    let mut deep: Vec<Node> = Vec::new();
    for n in nodes.iter() {
        deep.push(Node { id: n.id, rank: n.rank, symbol: n.symbol.clone(), left: n.left, right: n.right });
    }
    assert!(one.try_swap(&other, &mut nodes, 1, SwapMode::Shallow));
    assert_eq!(nodes[0], Node { id: 1, rank: 20, symbol: cs("x"), left: Some(2), right: None });
    assert_eq!(nodes[1], Node { id: 1, rank: 10, symbol: cs("a"), left: None, right: Some(3) });
    assert!(one.try_swap(&other, &mut deep, 1, SwapMode::Deep));
    assert_eq!(deep[0], Node { id: 1, rank: 20, symbol: cs("x"), left: None, right: Some(3) });
    assert_eq!(deep[1], Node { id: 1, rank: 10, symbol: cs("a"), left: Some(2), right: None });
    assert!(!one.try_swap(&other, &mut deep, 7, SwapMode::Deep));
    one.swap(&other, &mut deep, 2, SwapMode::Shallow);
    assert_eq!(deep[2].rank, 30);
    one.swap(&other, &mut deep, 2, SwapMode::Shallow);
    Node::swap(&mut deep, 2, 3, SwapMode::Shallow);
    assert_eq!(deep[2], Node { id: 2, rank: 30, symbol: cs("y"), left: None, right: None });
    assert_eq!(deep[3], Node { id: 2, rank: 5, symbol: cs("b"), left: None, right: None });
}

#[test]
fn node_is_put_in_with_the_nodes_it_points_to() {
    let mut nodes: Vec<Node> = Vec::new();
    let mut tree = Tree::new();
    tree.add(&mut nodes, 1, 10, cs("a"));
    nodes.push(Node { id: 8, rank: 3, symbol: cs("x"), left: None, right: None });
    tree.insert(&mut nodes, Node { id: 9, rank: 5, symbol: cs("yy"), left: Some(1), right: None });
    assert_eq!(nodes.len(), 3);
    assert_eq!(nodes[0].left, Some(2));
    assert_eq!(nodes[2].left, Some(1));
    assert_eq!(tree.find_id(&nodes, 8), vec![1]);
    assert_eq!(tree.get_level(&nodes), cs("yy"));
    Node::insert(&mut nodes, 2, Node { id: 4, rank: 7, symbol: cs("z"), left: None, right: None });
    assert_eq!(nodes[2].right, Some(3));
    assert_eq!(nodes[3].rank, 7);
    Node::insert(&mut nodes, 0, Node { id: 5, rank: 10, symbol: cs("w"), left: None, right: None });
    assert_eq!(nodes.len(), 4);
    Node::insert(&mut nodes, 0, Node { id: 6, rank: 4, symbol: cs("v"), left: None, right: None });
    assert_eq!(nodes[1].right, Some(4));
}
