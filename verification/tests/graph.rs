use iot_structures::devices::IoTDevice;
use iot_structures::graph::{min_index, reversed, InternetOfThings, TentativeWeight};
use std::collections::HashSet;
use std::iter::FromIterator;

fn new_device_with_id(id: u64) -> IoTDevice {
    IoTDevice::new(id, format!("My address is {}", id), "".to_owned())
}

fn build_graph(g: InternetOfThings, items: &Vec<IoTDevice>) -> InternetOfThings {
    let mut g = g;

    g.set_nodes(items.iter().map(|n| n.numerical_id.clone()).collect());
    g.set_edges(
        items[0].numerical_id.clone(),
        vec![
            (1, items[1].numerical_id.clone()),
            (1, items[2].numerical_id.clone()),
            (1, items[3].numerical_id.clone()),
            (10, items[9].numerical_id.clone()),
        ],
    );

    g.set_edges(
        items[1].numerical_id.clone(),
        vec![(1, items[0].numerical_id.clone())],
    );
    g.set_edges(
        items[2].numerical_id.clone(),
        vec![(1, items[0].numerical_id.clone())],
    );
    g.set_edges(
        items[3].numerical_id.clone(),
        vec![
            (1, items[0].numerical_id.clone()),
            (1, items[4].numerical_id.clone()),
        ],
    );
    g.set_edges(
        items[4].numerical_id.clone(),
        vec![
            (1, items[3].numerical_id.clone()),
            (1, items[5].numerical_id.clone()),
        ],
    );
    g.set_edges(
        items[5].numerical_id.clone(),
        vec![
            (1, items[4].numerical_id.clone()),
            (1, items[6].numerical_id.clone()),
        ],
    );
    g.set_edges(
        items[6].numerical_id.clone(),
        vec![
            (1, items[9].numerical_id.clone()),
            (1, items[5].numerical_id.clone()),
        ],
    );
    g.set_edges(
        items[7].numerical_id.clone(),
        vec![(1, items[9].numerical_id.clone())],
    );
    g.set_edges(
        items[8].numerical_id.clone(),
        vec![(1, items[9].numerical_id.clone())],
    );
    g.set_edges(
        items[9].numerical_id.clone(),
        vec![
            (1, items[8].numerical_id.clone()),
            (1, items[7].numerical_id.clone()),
            (1, items[6].numerical_id.clone()),
            (10, items[0].numerical_id.clone()),
        ],
    );
    g
}

#[test]
fn graph_insert_edges() {
    let len = 10;
    let items: Vec<IoTDevice> = (0..len).map(new_device_with_id).collect();

    let g = build_graph(InternetOfThings::new(), &items);

    assert_eq!(g.edges(), 20);
    assert_eq!(g.nodes(), len as usize);
}

#[test]
fn graph_find_shortest_path() {
    let len = 10;
    let items: Vec<IoTDevice> = (0..len).map(new_device_with_id).collect();

    let g = build_graph(InternetOfThings::new(), &items);

    assert_eq!(g.edges(), 20);
    assert_eq!(g.nodes(), len as usize);

    assert_eq!(
        g.shortest_path(items[0].numerical_id, items[9].numerical_id),
        Some((
            5,
            vec![
                items[0].numerical_id,
                items[3].numerical_id,
                items[4].numerical_id,
                items[5].numerical_id,
                items[6].numerical_id,
                items[9].numerical_id
            ]
        ))
    )
}

#[test]
fn graph_neighbors() {
    let len = 10;
    let items: Vec<IoTDevice> = (0..len).map(new_device_with_id).collect();

    let g = build_graph(InternetOfThings::new(), &items);

    assert_eq!(g.edges(), 20);
    assert_eq!(g.nodes(), len as usize);

    assert_eq!(
        g.connected(items[0].numerical_id, 1),
        Some(HashSet::from_iter(
            vec![
                items[1].numerical_id,
                items[2].numerical_id,
                items[3].numerical_id,
                items[9].numerical_id,
            ]
            .into_iter()
        ))
    )
}

#[test]
fn graph_edges_of_unknown_nodes() {
    let mut g = InternetOfThings::new();
    assert_eq!(g.nodes(), 0);
    assert_eq!(g.edges(), 0);
    assert_eq!(g.shortest_path(1, 2), None);
    assert_eq!(g.connected(1, 3), None);
    assert_eq!(g.get_node_index(1), None);
    g.set_nodes(vec![10, 20, 30]);
    assert_eq!(g.get_node_index(20), Some(1));
    assert_eq!(g.get_node_index(40), None);
    // an edge to a key that is not a node is left out
    g.set_edges(10, vec![(1, 20), (1, 99), (4, 30)]);
    assert_eq!(g.edges(), 2);
    // a source that is not a node yet becomes one
    g.set_edges(40, vec![(2, 10), (1, 40)]);
    assert_eq!(g.nodes(), 4);
    assert_eq!(g.edges(), 3);
    assert_eq!(g.get_node_index(40), Some(3));
    // new edges take the place of the old ones
    g.set_edges(10, vec![(7, 30)]);
    assert_eq!(g.edges(), 2);
    assert_eq!(g.shortest_path(10, 30), Some((7, vec![10, 30])));
    assert_eq!(g.shortest_path(30, 10), None);
    assert_eq!(g.shortest_path(10, 99), None);
    assert_eq!(g.shortest_path(99, 10), None);
}

#[test]
fn graph_reach_by_degree() {
    let len = 10;
    let items: Vec<IoTDevice> = (0..len).map(new_device_with_id).collect();
    let g = build_graph(InternetOfThings::new(), &items);
    assert_eq!(g.connected(0, 0), Some(HashSet::new()));
    assert_eq!(
        g.connected(0, 2),
        Some(HashSet::from_iter(vec![0u64, 1, 2, 3, 4, 6, 7, 8, 9].into_iter()))
    );
    assert_eq!(g.connected(7, 1), Some(HashSet::from_iter(vec![9u64].into_iter())));
    assert_eq!(g.connected(99, 1), None);
    assert_eq!(g.connected_r(7, 1), HashSet::from_iter(vec![9usize].into_iter()));
    assert_eq!(g.connected_r(7, 0), HashSet::new());
}

#[test]
fn least_weight_and_weights() {
    let inf = TentativeWeight::Infinite;
    let weights = vec![TentativeWeight::Number(5), inf, TentativeWeight::Number(2), TentativeWeight::Number(2)];
    assert_eq!(min_index(&weights, &vec![1, 2, 3]), 2);
    assert_eq!(min_index(&weights, &vec![3, 2]), 3);
    assert_eq!(min_index(&weights, &vec![1]), 0);
    assert_eq!(min_index(&weights, &vec![]), 0);
    assert_eq!(min_index(&weights, &vec![7, 1]), 0);
    assert!(TentativeWeight::Number(1).is_less_than(&TentativeWeight::Number(2)));
    assert!(!TentativeWeight::Number(2).is_less_than(&TentativeWeight::Number(2)));
    assert!(TentativeWeight::Number(u32::MAX).is_less_than(&inf));
    assert!(!inf.is_less_than(&inf));
    assert!(!inf.is_less_than(&TentativeWeight::Number(0)));
    assert_eq!(reversed(&vec![1, 2, 3]), vec![3, 2, 1]);
    assert_eq!(reversed(&vec![]), Vec::<u64>::new());
}

#[test]
fn path_search_gives_up_on_a_cost_beyond_u32() {
    let mut g = InternetOfThings::new();
    g.set_nodes(vec![1, 2, 3]);
    g.set_edges(1, vec![(u32::MAX, 2)]);
    g.set_edges(2, vec![(1, 3)]);
    assert_eq!(g.shortest_path(1, 2), Some((u32::MAX, vec![1, 2])));
    assert_eq!(g.shortest_path(1, 3), None);
}

#[test]
fn path_search_follows_the_open_nodes() {
    let mut g = InternetOfThings::new();
    g.set_nodes(vec![1, 2, 3, 4]);
    g.set_edges(1, vec![(5, 2), (1, 3)]);
    g.set_edges(3, vec![(1, 2), (7, 4)]);
    g.set_edges(2, vec![(1, 4)]);
    // node 2 is taken from the open nodes at the cost 5, before the way over 3 is known: the
    // way to 4 keeps the cost 6 that it had then
    assert_eq!(g.shortest_path(1, 4), Some((6, vec![1, 3, 2, 4])));
    assert_eq!(g.shortest_path(1, 2), Some((5, vec![1, 2])));
    // the least open node is named by its place among all nodes, which is no place among
    // the open ones any more
    assert_eq!(g.shortest_path(3, 4), None);
    // no way back
    assert_eq!(g.shortest_path(4, 1), None);
    // the node at which the search starts has no parent
    assert_eq!(g.shortest_path(1, 1), None);
    // of two nodes with one key the later one is taken, up to where both keys are found
    let mut twice = InternetOfThings::new();
    twice.set_nodes(vec![7, 7, 8]);
    twice.set_edges(7, vec![(1, 8)]);
    assert_eq!(twice.shortest_path(7, 8), None);
}

#[test]
fn graph_counts_the_edges_that_it_keeps() {
    let mut g = InternetOfThings::new();
    assert_eq!(g.edges(), 0);
    g.set_nodes(vec![1, 2, 3]);
    assert_eq!(g.edges(), 0);
    g.set_edges(1, vec![(1, 2), (1, 3), (5, 9)]);
    // the edge to 9 is left out
    assert_eq!(g.edges(), 2);
    g.set_edges(2, vec![(4, 1)]);
    assert_eq!(g.edges(), 3);
    // new edges take the place of the old ones
    g.set_edges(1, vec![(7, 3)]);
    assert_eq!(g.edges(), 2);
    // a node that the graph does not know is added, with its edges
    g.set_edges(4, vec![(1, 1), (1, 4)]);
    assert_eq!(g.nodes(), 4);
    assert_eq!(g.edges(), 3);
    assert_eq!(g.shortest_path(1, 3), Some((7, vec![1, 3])));
    assert_eq!(g.shortest_path(2, 3), Some((11, vec![2, 1, 3])));
}
