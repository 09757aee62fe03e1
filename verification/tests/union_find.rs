use graph::algorithms::wcc::union_find::{Component, Error, Node, UnionFind};
use graph::VertexId;

#[test]
fn finds_single_entry() {
    let union_find = UnionFind::new(vec![VertexId(1)]);
    assert_eq!(
        union_find.find(VertexId(1)),
        Ok(Component {
            id: VertexId(1),
            size: 1
        })
    );
}

#[test]
fn finds_an_entry() {
    let union_find =
        UnionFind::new(vec![VertexId(1), VertexId(3), VertexId(5), VertexId(2)]);
    assert_eq!(
        union_find.find(VertexId(5)),
        Ok(Component {
            id: VertexId(5),
            size: 1
        })
    );
}

#[test]
fn cannot_find_nonexistend_vertex() {
    let union_find = UnionFind::new(vec![VertexId(0)]);
    assert_eq!(
        union_find.find(VertexId(8)),
        Err(Error::VertexNotIncluded(VertexId(8)))
    );
}

#[test]
fn united_vertices_are_in_same_component() {
    {
        let mut union_find =
            UnionFind::new(vec![VertexId(0), VertexId(1), VertexId(2)]);
        assert!(union_find.union(VertexId(2), VertexId(0)).is_ok());
        assert_eq!(union_find.find(VertexId(2)), union_find.find(VertexId(0)));
        assert!(union_find.find(VertexId(1)) != union_find.find(VertexId(2)));
    }
    {
        let mut union_find = UnionFind::new(vec![
                VertexId(1),
                VertexId(3),
                VertexId(0),
                VertexId(5),
                VertexId(2),
                VertexId(6),
            ]);

        assert!(union_find.union(VertexId(1), VertexId(5)).is_ok());
        assert_eq!(union_find.find(VertexId(1)), union_find.find(VertexId(5)));

        assert!(union_find.union(VertexId(5), VertexId(3)).is_ok());
        assert_eq!(union_find.find(VertexId(5)), union_find.find(VertexId(3)));

        assert!(union_find.union(VertexId(2), VertexId(6)).is_ok());
        assert_eq!(union_find.find(VertexId(2)), union_find.find(VertexId(6)));

        assert!(union_find.find(VertexId(0)) != union_find.find(VertexId(1)));
        assert!(union_find.find(VertexId(0)) != union_find.find(VertexId(2)));
    }
}

#[test]
fn cannot_union_nonexistend_vertex() {
    let mut union_find = UnionFind::new(vec![VertexId(0)]);
    assert_eq!(
        union_find.union(VertexId(0), VertexId(8)),
        Err(Error::VertexNotIncluded(VertexId(8)))
    );
    assert_eq!(
        union_find.union(VertexId(7), VertexId(0)),
        Err(Error::VertexNotIncluded(VertexId(7)))
    );
    assert_eq!(
        union_find.union(VertexId(6), VertexId(5)),
        Err(Error::VertexNotIncluded(VertexId(6)))
    );
}

#[test]
fn vertices_are_added_to_bigger_sized_components() {
    let mut union_find =
        UnionFind::new(vec![VertexId(0), VertexId(1), VertexId(2), VertexId(3)]);
    assert!(union_find.union(VertexId(1), VertexId(2)).is_ok());
    assert!(union_find.union(VertexId(0), VertexId(1)).is_ok());
    assert!(union_find.union(VertexId(3), VertexId(1)).is_ok());
    let expected = vec![
        (VertexId(1), Node::TreeRoot(4)),
        (VertexId(0), Node::DecendentOf(VertexId(1))),
        (VertexId(2), Node::DecendentOf(VertexId(1))),
        (VertexId(3), Node::DecendentOf(VertexId(1))),
    ];
    for (vertex, node) in expected {
        assert_eq!(union_find.node(vertex), Some(node));
    }
    assert_eq!(union_find.node(VertexId(4)), None);
}

#[test]
fn trees_of_one_size_are_put_below_the_first_root() {
    let mut union_find = UnionFind::new(vec![VertexId(0), VertexId(1), VertexId(2)]);
    assert_eq!(union_find.union(VertexId(2), VertexId(0)), Ok(()));
    assert_eq!(union_find.node(VertexId(0)), Some(Node::DecendentOf(VertexId(2))));
    assert_eq!(union_find.node(VertexId(2)), Some(Node::TreeRoot(2)));
    assert_eq!(union_find.union(VertexId(1), VertexId(0)), Ok(()));
    assert_eq!(union_find.node(VertexId(1)), Some(Node::DecendentOf(VertexId(2))));
    assert_eq!(
        union_find.find(VertexId(1)),
        Ok(Component {
            id: VertexId(2),
            size: 3
        })
    );
    assert_eq!(union_find.union(VertexId(1), VertexId(0)), Ok(()));
    assert_eq!(union_find.node(VertexId(2)), Some(Node::TreeRoot(3)));
}
