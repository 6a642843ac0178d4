use simplicity::ast::Agent;
use simplicity::ast::Var;
use simplicity::diagram::NodeId;
use simplicity::idx::map_entry;
use simplicity::idx::IndexVec;
use simplicity::scope::Scope;
use simplicity::scope::ScopeBuilder;

#[test]
fn index_types_convert_both_ways() {
    assert_eq!(NodeId::from(7), NodeId(7));
    assert_eq!(usize::from(NodeId(7)), 7);
    assert_eq!(Var::from(3), Var(3));
    assert_eq!(usize::from(Var(3)), 3);
    assert_eq!(Agent::from(0), Agent(0));
    assert_eq!(usize::from(Agent(9)), 9);
    let n: usize = NodeId(11).into();
    assert_eq!(n, 11);
    let v: Var = 12.into();
    assert_eq!(v, Var(12));
    assert!(NodeId(1) < NodeId(2));
}

#[test]
fn index_vec_push_and_get() {
    let mut vec: IndexVec<NodeId, char> = IndexVec::new();
    assert_eq!(vec.len(), 0);
    assert_eq!(vec.next_index(), NodeId(0));
    assert_eq!(vec.get(NodeId(0)), None);
    assert_eq!(vec.push('a'), NodeId(0));
    assert_eq!(vec.push('b'), NodeId(1));
    assert_eq!(vec.push('c'), NodeId(2));
    assert_eq!(vec.len(), 3);
    assert_eq!(vec.next_index(), NodeId(3));
    assert_eq!(vec.get(NodeId(0)), Some(&'a'));
    assert_eq!(vec.get(NodeId(2)), Some(&'c'));
    assert_eq!(vec.get(NodeId(3)), None);
}

#[test]
fn index_vec_get_mut() {
    let mut vec: IndexVec<NodeId, u32> = IndexVec::new();
    vec.push(10);
    vec.push(20);
    if let Some(x) = vec.get_mut(NodeId(1)) {
        *x = 21;
    }
    assert!(vec.get_mut(NodeId(2)).is_none());
    assert_eq!(vec.into_values(), vec![10, 21]);
}

#[test]
fn index_vec_get_or_extend() {
    let mut vec: IndexVec<NodeId, u32> = IndexVec::new();
    *vec.get_or_extend(NodeId(2)) = 5;
    assert_eq!(vec.len(), 3);
    assert_eq!(vec.get(NodeId(0)), Some(&0));
    assert_eq!(vec.get(NodeId(1)), Some(&0));
    assert_eq!(vec.get(NodeId(2)), Some(&5));
    // a position that is there is handed out as it is
    assert_eq!(*vec.get_or_extend(NodeId(2)), 5);
    assert_eq!(*vec.get_or_extend(NodeId(0)), 0);
    assert_eq!(vec.len(), 3);
}

#[test]
fn index_vec_get_or_extend_with() {
    let mut vec: IndexVec<NodeId, u32> = IndexVec::new();
    vec.push(1);
    let mut calls = 0;
    let slot = vec.get_or_extend_with(NodeId(3), || {
        calls += 1;
        9
    });
    assert_eq!(*slot, 9);
    assert_eq!(calls, 3);
    assert_eq!(vec.into_values(), vec![1, 9, 9, 9]);
}

#[test]
fn index_vec_listings() {
    let mut vec: IndexVec<Var, &str> = IndexVec::default();
    vec.push("x");
    vec.push("y");
    assert_eq!(vec.keys(), vec![Var(0), Var(1)]);
    assert_eq!(vec.values(), vec![&"x", &"y"]);
    assert_eq!(vec.iter(), vec![(Var(0), &"x"), (Var(1), &"y")]);
    let copy = vec.clone();
    assert_eq!(copy.into_values(), vec!["x", "y"]);
    assert_eq!(vec.into_values(), vec!["x", "y"]);
}

#[test]
fn index_vec_values_mut_and_into_iter() {
    let mut vec: IndexVec<NodeId, u32> = IndexVec::new();
    vec.push(1);
    vec.push(2);
    vec.push(3);
    for value in vec.values_mut() {
        *value *= 10;
    }
    assert_eq!(vec.into_iter(), vec![(NodeId(0), 10), (NodeId(1), 20), (NodeId(2), 30)]);
    let none: IndexVec<NodeId, u32> = IndexVec::new();
    assert_eq!(none.into_iter(), vec![]);
    let back: Vec<u8> = Vec::from(IndexVec::<NodeId, u8>::from(vec![7, 8]));
    assert_eq!(back, vec![7, 8]);
}

#[test]
fn index_vec_from_a_vector() {
    let vec: IndexVec<NodeId, u8> = IndexVec::from(vec![4, 5, 6]);
    assert_eq!(vec.len(), 3);
    assert_eq!(vec.get(NodeId(1)), Some(&5));
}

#[test]
fn map_entry_names_the_position() {
    let entry: (NodeId, char) = map_entry((4, 'z'));
    assert_eq!(entry, (NodeId(4), 'z'));
}

#[test]
fn scope_define_hands_out_the_next_index() {
    let mut scope: Scope<Agent, u32> = Scope::default();
    assert_eq!(scope.define(String::from("a"), 1), Agent(0));
    assert_eq!(scope.define(String::from("b"), 2), Agent(1));
    assert_eq!(scope.define(String::from("a"), 3), Agent(2));
    assert_eq!(scope.defs.len(), 3);
    let second = scope.defs.get(Agent(1)).unwrap();
    assert_eq!(second.name, "b");
    assert_eq!(second.value, 2);
}

#[test]
fn scope_builder_define_refuses_a_second_definition() {
    let mut builder: ScopeBuilder<Agent, u32> = ScopeBuilder::default();
    assert_eq!(builder.define("a", 1), Ok(Agent(0)));
    assert_eq!(builder.define("b", 2), Ok(Agent(1)));
    assert_eq!(builder.define("a", 3), Err(()));
    assert_eq!(builder.scope.defs.len(), 2);
    assert_eq!(builder.get("b"), Some(Agent(1)));
    assert_eq!(builder.get("c"), None);
    // the name that was refused now stands for the index that comes next
    assert_eq!(builder.get("a"), Some(Agent(2)));
}

#[test]
fn scope_builder_get_or_define() {
    let mut builder: ScopeBuilder<Var, ()> = ScopeBuilder::default();
    assert_eq!(builder.get_or_define("x", ()), Var(0));
    assert_eq!(builder.get_or_define("y", ()), Var(1));
    assert_eq!(builder.get_or_define("x", ()), Var(0));
    assert_eq!(builder.scope.defs.len(), 2);
    assert_eq!(builder.get("y"), Some(Var(1)));
}

#[test]
fn scope_builder_finish_starts_afresh() {
    let mut builder: ScopeBuilder<Var, u8> = ScopeBuilder::default();
    builder.get_or_define("x", 1);
    builder.get_or_define("y", 2);
    let scope = builder.finish();
    assert_eq!(scope.defs.len(), 2);
    assert_eq!(scope.defs.get(Var(0)).unwrap().name, "x");
    assert_eq!(scope.defs.get(Var(1)).unwrap().value, 2);
    assert_eq!(builder.get("x"), None);
    assert_eq!(builder.scope.defs.len(), 0);
    assert_eq!(builder.get_or_define("z", 3), Var(0));
}
