use kvs::assoc::AssocList;
use kvs::directory::Directory;

fn name(text: &str) -> String {
    text.to_owned()
}

#[test]
fn an_empty_directory_holds_no_file() {
    let dir = Directory::new();
    assert!(dir.names().is_empty());
    assert!(!dir.contains(&name("a")));
    assert_eq!(dir.read(&name("a")), None);
}

#[test]
fn a_file_that_was_written_is_read_back() {
    let mut dir = Directory::new();
    dir.write(name("a"), vec![1, 2, 3]);
    dir.write(name("b"), vec![]);
    assert_eq!(dir.read(&name("a")), Some(&vec![1, 2, 3]));
    assert_eq!(dir.read(&name("b")), Some(&vec![]));
    assert!(dir.contains(&name("b")));
    let mut names = dir.names();
    names.sort();
    assert_eq!(names, vec![name("a"), name("b")]);
}

#[test]
fn writing_a_file_again_replaces_it() {
    let mut dir = Directory::new();
    dir.write(name("a"), vec![1, 2, 3]);
    dir.write(name("a"), vec![4]);
    assert_eq!(dir.read(&name("a")), Some(&vec![4]));
    assert_eq!(dir.names(), vec![name("a")]);
}

#[test]
fn appending_makes_the_file_and_then_lets_it_grow() {
    let mut dir = Directory::new();
    assert_eq!(dir.append(name("a"), vec![1, 2]), (0, 2));
    assert_eq!(dir.append(name("a"), vec![3]), (2, 3));
    assert_eq!(dir.append(name("a"), vec![]), (3, 3));
    assert_eq!(dir.append(name("b"), vec![9]), (0, 1));
    assert_eq!(dir.read(&name("a")), Some(&vec![1, 2, 3]));
    assert_eq!(dir.read(&name("b")), Some(&vec![9]));
    assert_eq!(dir.names().len(), 2);
}

#[test]
fn a_removed_file_is_gone() {
    let mut dir = Directory::new();
    dir.write(name("a"), vec![1]);
    dir.write(name("b"), vec![2]);
    dir.write(name("c"), vec![3]);
    assert!(dir.remove(&name("b")));
    assert!(!dir.remove(&name("b")));
    assert!(!dir.remove(&name("never there")));
    assert_eq!(dir.read(&name("b")), None);
    assert_eq!(dir.read(&name("a")), Some(&vec![1]));
    assert_eq!(dir.read(&name("c")), Some(&vec![3]));
    let mut names = dir.names();
    names.sort();
    assert_eq!(names, vec![name("a"), name("c")]);
}

#[test]
fn a_list_keeps_one_value_for_each_key() {
    let mut list: AssocList<u32> = AssocList::new();
    assert_eq!(list.len(), 0);
    list.insert(name("a"), 1);
    list.insert(name("b"), 2);
    list.insert(name("a"), 3);
    assert_eq!(list.len(), 2);
    assert_eq!(list.get(&name("a")), Some(&3));
    assert_eq!(list.get(&name("b")), Some(&2));
    assert_eq!(list.get(&name("c")), None);
    assert_eq!(list.find(&name("b")), Some(1));
    assert_eq!(list.key(0), &name("a"));
    assert_eq!(list.value(0), &3);
    assert_eq!(list.remove(&name("a")), Some(3));
    assert_eq!(list.remove(&name("a")), None);
    assert_eq!(list.len(), 1);
    assert_eq!(list.get(&name("b")), Some(&2));
    assert_eq!(list.find(&name("b")), Some(0));
}
