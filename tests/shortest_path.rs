use wikipath::graph::{PathError, Wikipedia};

fn graph(pages: &[(i32, &str)], links: &[(i32, i32)]) -> Wikipedia {
    let mut w = Wikipedia::empty();
    for (id, title) in pages {
        w.add_page(*id, title.to_string());
    }
    for (from, to) in links {
        w.add_link(*from, *to);
    }
    w
}

fn path(titles: &[&str]) -> Option<Vec<String>> {
    Some(titles.iter().map(|t| t.to_string()).collect())
}

#[test]
fn direct_link_gives_two_titles() {
    let w = graph(&[(1, "A"), (2, "B")], &[(1, 2)]);
    assert_eq!(w.find_shortest_path("A", "B"), Ok(path(&["A", "B"])));
}

#[test]
fn two_links_give_three_titles() {
    let w = graph(&[(1, "A"), (2, "B"), (3, "C")], &[(1, 2), (2, 3)]);
    assert_eq!(w.find_shortest_path("A", "C"), Ok(path(&["A", "B", "C"])));
}

#[test]
fn shorter_route_wins_over_longer_one() {
    // A -> X -> Y -> C is longer than A -> B -> C, and is stored first.
    let w = graph(
        &[(1, "A"), (2, "B"), (3, "C"), (4, "X"), (5, "Y")],
        &[(1, 4), (4, 5), (5, 3), (1, 2), (2, 3)],
    );
    assert_eq!(w.find_shortest_path("A", "C"), Ok(path(&["A", "B", "C"])));
}

#[test]
fn unknown_start_title_is_an_error() {
    let w = graph(&[(1, "A"), (2, "B")], &[(1, 2)]);
    assert_eq!(w.find_shortest_path("Z", "B"), Err(PathError::StartNotFound));
}

#[test]
fn unknown_goal_title_is_an_error() {
    let w = graph(&[(1, "A"), (2, "B")], &[(1, 2)]);
    assert_eq!(w.find_shortest_path("A", "Z"), Err(PathError::GoalNotFound));
}

#[test]
fn both_titles_unknown_reports_start() {
    let w = graph(&[(1, "A")], &[]);
    assert_eq!(w.find_shortest_path("X", "Y"), Err(PathError::StartNotFound));
}

#[test]
fn empty_graph_knows_no_title() {
    let w = Wikipedia::empty();
    assert_eq!(w.find_shortest_path("A", "A"), Err(PathError::StartNotFound));
}

#[test]
fn same_start_and_goal_gives_one_title() {
    let w = graph(&[(1, "A"), (2, "B")], &[(1, 2), (2, 1)]);
    assert_eq!(w.find_shortest_path("A", "A"), Ok(path(&["A"])));
}

#[test]
fn no_route_gives_none() {
    let w = graph(&[(1, "A"), (2, "B"), (3, "C")], &[(2, 1), (1, 3)]);
    assert_eq!(w.find_shortest_path("A", "B"), Ok(None));
}

#[test]
fn isolated_pages_give_none() {
    let w = graph(&[(1, "A"), (2, "B")], &[]);
    assert_eq!(w.find_shortest_path("A", "B"), Ok(None));
}

#[test]
fn ties_follow_stored_link_order() {
    // A links to B, then to C; both lead to D in two steps.
    let w = graph(
        &[(1, "A"), (2, "B"), (3, "C"), (4, "D")],
        &[(1, 2), (1, 3), (2, 4), (3, 4)],
    );
    assert_eq!(w.find_shortest_path("A", "D"), Ok(path(&["A", "B", "D"])));
}

#[test]
fn ties_follow_stored_link_order_reversed() {
    let w = graph(
        &[(1, "A"), (2, "B"), (3, "C"), (4, "D")],
        &[(1, 3), (1, 2), (2, 4), (3, 4)],
    );
    assert_eq!(w.find_shortest_path("A", "D"), Ok(path(&["A", "C", "D"])));
}

#[test]
fn ties_on_a_deeper_level_follow_discovery_order() {
    // Level one holds B then C; B -> F -> E and C -> D -> E are equally
    // short, and B's branch is extended first.
    let w = graph(
        &[(1, "A"), (2, "B"), (3, "C"), (4, "D"), (5, "E"), (6, "F")],
        &[(1, 2), (1, 3), (3, 4), (2, 6), (4, 5), (6, 5)],
    );
    assert_eq!(w.find_shortest_path("A", "E"), Ok(path(&["A", "B", "F", "E"])));
}

#[test]
fn cycles_do_not_loop() {
    let w = graph(
        &[(1, "A"), (2, "B"), (3, "C"), (4, "D")],
        &[(1, 2), (2, 1), (2, 3), (3, 2), (3, 1), (3, 4)],
    );
    assert_eq!(w.find_shortest_path("A", "D"), Ok(path(&["A", "B", "C", "D"])));
}

#[test]
fn self_link_is_harmless() {
    let w = graph(&[(1, "A"), (2, "B")], &[(1, 1), (1, 2)]);
    assert_eq!(w.find_shortest_path("A", "B"), Ok(path(&["A", "B"])));
}

#[test]
fn duplicate_title_resolves_to_lowest_id() {
    // Two pages are titled "S"; only the one with id 3 links onward.
    let w = graph(&[(7, "S"), (3, "S"), (5, "G")], &[(3, 5)]);
    assert_eq!(w.find_shortest_path("S", "G"), Ok(path(&["S", "G"])));
    let w = graph(&[(3, "S"), (7, "S"), (5, "G")], &[(7, 5)]);
    assert_eq!(w.find_shortest_path("S", "G"), Ok(None));
}

#[test]
fn readding_a_page_retitles_it() {
    let w = graph(&[(1, "A"), (2, "B"), (1, "Z")], &[(1, 2)]);
    assert_eq!(w.find_shortest_path("A", "B"), Err(PathError::StartNotFound));
    assert_eq!(w.find_shortest_path("Z", "B"), Ok(path(&["Z", "B"])));
}

#[test]
fn link_to_unknown_page_is_dropped() {
    let w = graph(&[(1, "A"), (2, "B")], &[(1, 9), (9, 2), (1, 2)]);
    assert_eq!(w.find_shortest_path("A", "B"), Ok(path(&["A", "B"])));
}

#[test]
fn negative_ids_work() {
    let w = graph(&[(-1, "A"), (-2147483648, "B")], &[(-1, -2147483648)]);
    assert_eq!(w.find_shortest_path("A", "B"), Ok(path(&["A", "B"])));
}

#[test]
fn tie_follows_successor_order_not_ids() {
    // A links to C before B; both reach D in two steps.
    let w = graph(
        &[(1, "A"), (2, "B"), (3, "C"), (4, "D")],
        &[(1, 3), (1, 2), (2, 4), (3, 4)],
    );
    assert_eq!(w.find_shortest_path("A", "D"), Ok(path(&["A", "C", "D"])));
}
