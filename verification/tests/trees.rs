use state_search::fruit::{find_root, fruit_path, get_path, read, pest, PathError};

fn cs(text: &str) -> Vec<char> {
    text.chars().collect()
}

const TREE: &str = "RR:A,B,C\nA:D,E\nB:F,@\nC:G,H\nD:@\nE:@\nF:@\nG:@\nH:@";

#[test]
fn tree_is_read_row_by_row() {
    let roots = read("RR:A,B\nA:@\nB:").unwrap();
    assert_eq!(roots.len(), 3);
    assert_eq!(roots[0].name, cs("RR"));
    assert_eq!(roots[0].branches, vec![cs("A"), cs("B")]);
    assert_eq!(roots[1].branches, vec![cs("@")]);
    assert_eq!(roots[2].branches, vec![cs("")]);
    assert!(read("RR:A\nB").is_none());
    assert_eq!(read("").unwrap().len(), 0);
    let twice = read("A:B:C,D").unwrap();
    assert_eq!(twice[0].name, cs("A"));
    assert_eq!(twice[0].branches, vec![cs("B:C"), cs("D")]);
}

#[test]
fn node_is_looked_up_by_name_and_the_last_row_counts() {
    let roots = read("RR:A\nA:B\nRR:C").unwrap();
    assert_eq!(find_root(&roots, &cs("RR")), Some(2));
    assert_eq!(find_root(&roots, &cs("A")), Some(1));
    assert_eq!(find_root(&roots, &cs("B")), None);
    assert_eq!(find_root(&roots, &cs("R")), None);
    assert!(pest(&cs("BUG")));
    assert!(pest(&cs("ANT")));
    assert!(!pest(&cs("BUT")));
    assert!(!pest(&cs("BUGS")));
}

#[test]
fn way_to_the_fruit_alone_at_its_depth() {
    assert_eq!(get_path(TREE, 100), Ok("RB@".to_string()));
    assert_eq!(get_path(TREE, 3), Ok("RB@".to_string()));
    assert_eq!(get_path(TREE, 2), Err(PathError::TooDeep));
    assert_eq!(get_path(TREE, 0), Err(PathError::TooDeep));
    let roots = read(TREE).unwrap();
    assert_eq!(fruit_path(&roots, false, 100), Ok(cs("RB@")));
}

#[test]
fn least_depth_counts_where_two_fruits_are_alone() {
    assert_eq!(get_path("RR:@,A\nA:@", 10), Ok("R@".to_string()));
    assert_eq!(get_path("RR:A,@,@\nA:@", 10), Ok("RA@".to_string()));
    assert_eq!(get_path("RR:A\nRR:@", 10), Ok("R@".to_string()));
}

#[test]
fn nothing_is_looked_for_below_pests() {
    let text = "RR:A,B\nA:@\nB:@,BUG\nBUG:@";
    assert_eq!(get_path(text, 10), Err(PathError::NoUniqueLength));
    let roots = read(text).unwrap();
    assert_eq!(fruit_path(&roots, true, 10), Err(PathError::NoUniqueLength));
    assert_eq!(fruit_path(&roots, false, 10), Ok(cs("RBB@")));
    let ants = read("RR:ANT,X\nANT:@\nX:Y\nY:@,@").unwrap();
    assert_eq!(fruit_path(&ants, true, 10), Err(PathError::NoUniqueLength));
    assert_eq!(fruit_path(&ants, false, 10), Ok(cs("RA@")));
}

#[test]
fn faults_of_a_tree_are_told_apart() {
    assert_eq!(get_path("RR:A\nB", 10), Err(PathError::BadLine));
    assert_eq!(get_path("", 10), Err(PathError::NoUniqueLength));
    assert_eq!(get_path("A:@", 10), Err(PathError::NoUniqueLength));
    assert_eq!(get_path("RR:A\nA:RR", 10), Err(PathError::TooDeep));
    assert_eq!(get_path(":@\nRR:", 10), Err(PathError::BadName));
    assert_eq!(get_path("RR:\u{e9}\n\u{e9}:@", 10), Err(PathError::BadName));
    assert_eq!(get_path("RR:@,\u{e9}\n\u{e9}:@", 10), Err(PathError::BadName));
    assert_eq!(get_path("RR:,@", 10), Ok("R@".to_string()));
}
