use pillar::parserhashed::TokenMap;

#[test]
fn parserhashed_test_parse_basic() {
    let content = String::from("the {quick {brown}} fox {jumps}");
    let (parsed, children) = TokenMap::parse(&content);

    assert_eq!(2, children.len());
    assert_eq!("the {} fox {}", parsed);
    assert_eq!("quick {brown}", children[0].1);
    assert_eq!("jumps", children[1].1);
}

#[test]
fn test_build() {
    let content = String::from("the {quick {brown}} fox {jumps}");
    let (hash, mut map) = TokenMap::from(&content);
    let root = map.get(hash);

    assert_eq!(root.contents, "the {} fox {}");

    let mut tree = root.contents.clone();
    tree.push_str("\n");
    let mut checking: Vec<u32> = vec![];
    for child in &root.children[..] {
        checking.push(*child);
    }

    for i in 0..checking.len() {
        let token = map.get(checking[i]);
        tree.push_str(&token.contents);
        tree.push_str("\n");
        checking.push(token.id);
    }

    assert_eq!("the {} fox {}\nquick {}\njumps\n", tree);
}

#[test]
fn parse_keeps_runes_off_the_contents() {
    let content = String::from("a .{one} b @{two}");
    let (parsed, children) = TokenMap::parse(&content);
    assert_eq!("a {} b {}", parsed);
    assert_eq!(2, children.len());
    assert_eq!(b'.', children[0].0);
    assert_eq!("one", children[0].1);
    assert_eq!(b'@', children[1].0);
    assert_eq!("two", children[1].1);
}

#[test]
fn parse_drops_pipe_after_brace() {
    let content = String::from("{|x}");
    let (parsed, children) = TokenMap::parse(&content);
    assert_eq!("{}", parsed);
    assert_eq!(1, children.len());
    assert_eq!("|x", children[0].1);
}

#[test]
fn parse_tolerates_stray_closing_brace() {
    let content = String::from("}tail");
    let (parsed, children) = TokenMap::parse(&content);
    assert_eq!("}tail", parsed);
    assert_eq!(1, children.len());
    assert_eq!("", children[0].1);
}

#[test]
fn from_keys_root_by_hash_of_contents() {
    let content = String::from("the {quick {brown}} fox {jumps}");
    let (hash, mut map) = TokenMap::from(&content);
    assert_eq!(pillar::murmur3::hash("the {} fox {}".as_bytes()), hash);
    let root = map.get(hash);
    assert_eq!(hash, root.id);
    assert_eq!(None, root.parent);
    assert_eq!(2, root.children.len());
}
