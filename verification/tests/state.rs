use routing::state::RouteState;

#[test]
fn get_and_is_empty_track_position() {
    let path = "/users/42/edit";
    let mut st = RouteState::from_route(path);
    assert!(!st.is_empty());
    assert_eq!(st.get(), Some(b"users".as_slice()));
    st.skip();
    assert_eq!(st.get(), Some(b"42".as_slice()));
    st.skip();
    assert_eq!(st.get(), Some(b"edit".as_slice()));
    st.skip();
    assert!(st.is_empty());
    assert_eq!(st.get(), None);
}

#[test]
fn root_route_state_is_immediately_empty() {
    let st = RouteState::from_route("/");
    assert!(st.is_empty());
    assert_eq!(st.get(), None);
}

#[test]
fn snapshot_then_go_to_is_a_no_op() {
    let mut st = RouteState::from_route("/a/b/c");
    st.skip();
    st.keep();
    let snap = st.snapshot();
    st.go_to(snap);
    assert_eq!(st.snapshot(), snap);
    assert_eq!(st.get(), Some(b"c".as_slice()));
}

#[test]
fn go_to_backtracks_for_another_attempt() {
    let mut st = RouteState::from_route("/a/b");
    let snap = st.snapshot();
    st.skip();
    st.skip();
    assert!(st.is_empty());
    st.go_to(snap);
    assert!(!st.is_empty());
    assert_eq!(st.get(), Some(b"a".as_slice()));
    st.keep();
    st.keep();
    let names = vec![b"x".to_vec(), b"y".to_vec()];
    let vars = st.variables(&names);
    assert_eq!(vars.len(), 2);
    assert!(vars.contains(&(b"x".to_vec(), b"a".to_vec())));
    assert!(vars.contains(&(b"y".to_vec(), b"b".to_vec())));
}

#[test]
fn cloned_states_branch_independently() {
    let mut st = RouteState::from_route("/a/b");
    st.skip();
    let mut branch = st.clone();
    st.skip();
    assert!(st.is_empty());
    assert!(!branch.is_empty());
    branch.keep();
    let names = vec![b"x".to_vec()];
    assert!(st.variables(&names).is_empty());
    assert_eq!(
        branch.variables(&names),
        vec![(b"x".to_vec(), b"b".to_vec())]
    );
}

#[test]
fn go_to_restores_counters_but_not_slot_assignments() {
    let mut st = RouteState::from_route("/a/b");
    let snap = st.snapshot();
    st.keep();
    st.keep();
    st.go_to(snap);
    st.skip();
    // the second segment's assignment from before the restore is
    // deliberately left in place
    let names = vec![b"first".to_vec(), b"second".to_vec()];
    let vars = st.variables(&names);
    assert_eq!(vars, vec![(b"second".to_vec(), b"b".to_vec())]);
}

#[test]
fn keep_then_fuse_merges_segments_under_one_name() {
    let mut st = RouteState::from_route("/images/2024/07");
    st.keep();
    st.fuse();
    st.fuse();
    let names: Vec<Vec<u8>> = vec![Vec::new(), b"path".to_vec()];
    let vars = st.variables(&names);
    assert_eq!(vars, vec![(b"path".to_vec(), b"2024/07".to_vec())]);
}

#[test]
fn independent_keeps_allocate_increasing_slots() {
    let mut st = RouteState::from_route("/a/b");
    let (_, v0) = st.snapshot();
    st.keep();
    let (_, v1) = st.snapshot();
    st.keep();
    let (_, v2) = st.snapshot();
    assert!(v0 < v1 && v1 < v2);
    let names = vec![b"first".to_vec(), b"second".to_vec()];
    let vars = st.variables(&names);
    assert_eq!(vars.len(), 2);
    assert!(vars.contains(&(b"first".to_vec(), b"a".to_vec())));
    assert!(vars.contains(&(b"second".to_vec(), b"b".to_vec())));
}

#[test]
fn empty_name_table_yields_empty_mapping() {
    let mut st = RouteState::from_route("/a/b/c");
    st.keep();
    st.fuse();
    st.keep();
    let vars = st.variables(&[]);
    assert!(vars.is_empty());
}

#[test]
fn end_to_end_path_capture() {
    let mut st = RouteState::from_route("/users/42/edit");
    st.keep();
    st.keep();
    st.skip();
    let names = vec![Vec::new(), b"id".to_vec(), Vec::new()];
    let vars = st.variables(&names);
    assert_eq!(vars, vec![(b"id".to_vec(), b"42".to_vec())]);
}

#[test]
fn skip_keep_skip_with_single_name() {
    let mut st = RouteState::from_route("/users/42/edit");
    st.skip();
    st.keep();
    st.skip();
    let names = vec![b"id".to_vec()];
    let vars = st.variables(&names);
    assert_eq!(vars, vec![(b"id".to_vec(), b"42".to_vec())]);
}

#[test]
fn later_binding_overwrites_earlier_of_same_name() {
    let mut st = RouteState::from_route("/a/b");
    st.keep();
    st.keep();
    let names = vec![b"x".to_vec(), b"x".to_vec()];
    let vars = st.variables(&names);
    assert_eq!(vars, vec![(b"x".to_vec(), b"b".to_vec())]);
}

#[test]
fn out_of_range_slot_is_not_captured() {
    let mut st = RouteState::from_route("/a/b");
    st.keep();
    st.keep();
    let names = vec![b"a_name".to_vec()];
    let vars = st.variables(&names);
    assert_eq!(vars, vec![(b"a_name".to_vec(), b"a".to_vec())]);
}

#[test]
fn unassigned_gap_still_joins_same_slot() {
    let mut st = RouteState::from_route("/a/b/c");
    st.fuse();
    st.skip();
    st.fuse();
    let names = vec![b"v".to_vec()];
    let vars = st.variables(&names);
    assert_eq!(vars, vec![(b"v".to_vec(), b"a/c".to_vec())]);
}

#[test]
fn undecided_segments_capture_nothing() {
    let st = RouteState::from_route("/a/b");
    let names = vec![b"x".to_vec(), b"y".to_vec()];
    let vars = st.variables(&names);
    assert!(vars.is_empty());
}

#[test]
fn binary_segments_are_captured_verbatim() {
    let raw: &[u8] = b"/k\xffv/x";
    let mut st = RouteState::from_route(raw);
    st.keep();
    st.skip();
    let names = vec![b"key".to_vec()];
    let vars = st.variables(&names);
    assert_eq!(vars, vec![(b"key".to_vec(), b"k\xffv".to_vec())]);
}
