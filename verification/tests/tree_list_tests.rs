//! The tree list exercised through its public operations: insertions at
//! every placement, collapse and expand, subtree removal, and the row
//! translation that skips hidden descendants.

use tree_list::Placement;
use tree_list::TreeList;
use tree_list::TreeNode;
use std::fmt;

/// The visible nodes in display order, each as
/// (level, collapsed, value, descendant count, height).
fn to_vec(tree: &TreeList<String>) -> Vec<(usize, bool, String, usize, usize)> {
    let mut list = Vec::new();
    let mut i = 0;
    while i < tree.len() {
        let item: &TreeNode<String> = &tree.items()[i];
        let collapsed = tree.get_collapsed(i);
        let children = tree.get_children(i);
        list.push((item.level(), collapsed, item.value().clone(), children, item.height()));
        if collapsed {
            i += children + 1;
        } else {
            i += 1;
        }
    }
    list
}

#[test]
    fn test_create() {
        let _ = TreeList::<String>::new();
    }

#[test]
    fn test_insert_out_of_bounds() {
        let _ = TreeList::<String>::new();
    }

#[test]
    fn test_insert_after_flat() {

        let mut tree = TreeList::<String>::new();
        assert_eq!(
            tree.insert_item(Placement::After, 0, "1".to_string()),
            Some(0)
        );
        assert_eq!(
            tree.insert_item(Placement::After, 0, "2".to_string()),
            Some(1)
        );
        assert_eq!(
            tree.insert_item(Placement::After, 1, "3".to_string()),
            Some(2)
        );
        assert_eq!(
            tree.insert_item(Placement::After, 2, "4".to_string()),
            Some(3)
        );

        assert_eq!(
            to_vec(&tree),
            vec![
                (0, false, "1".to_string(), 0, 1),
                (0, false, "2".to_string(), 0, 1),
                (0, false, "3".to_string(), 0, 1),
                (0, false, "4".to_string(), 0, 1)
            ]
        );

        assert_eq!(tree.len(), 4);
        assert_eq!(tree.height(), 4);
    }

#[test]
    fn test_insert_after_out_of_range() {

        let mut tree = TreeList::<String>::new();
        assert_eq!(
            tree.insert_item(Placement::After, 0, "1".to_string()),
            Some(0)
        );
        assert_eq!(
            tree.insert_item(Placement::After, 10, "2".to_string()),
            Some(1)
        );
        assert_eq!(
            tree.insert_item(Placement::After, 20, "3".to_string()),
            Some(2)
        );
        assert_eq!(
            tree.insert_item(Placement::After, 30, "4".to_string()),
            Some(3)
        );

        assert_eq!(
            to_vec(&tree),
            vec![
                (0, false, "1".to_string(), 0, 1),
                (0, false, "2".to_string(), 0, 1),
                (0, false, "3".to_string(), 0, 1),
                (0, false, "4".to_string(), 0, 1)
            ]
        );

        assert_eq!(tree.len(), 4);
        assert_eq!(tree.height(), 4);
    }

#[test]
    fn test_insert_after_nested() {

        let mut tree = TreeList::<String>::new();
        tree.insert_item(Placement::After, 0, "Parent".to_string());
        tree.insert_item(Placement::LastChild, 0, "1".to_string());
        tree.insert_item(Placement::After, 1, "2".to_string());
        tree.insert_item(Placement::After, 2, "3".to_string());
        tree.insert_item(Placement::After, 3, "4".to_string());

        assert_eq!(
            to_vec(&tree),
            vec![
                (0, false, "Parent".to_string(), 4, 5),
                (1, false, "1".to_string(), 0, 1),
                (1, false, "2".to_string(), 0, 1),
                (1, false, "3".to_string(), 0, 1),
                (1, false, "4".to_string(), 0, 1)
            ]
        );

        assert_eq!(tree.len(), 5);
        assert_eq!(tree.height(), 5);

        tree.insert_item(Placement::After, 0, "12".to_string());
        tree.insert_item(Placement::After, 0, "11".to_string());
        tree.insert_item(Placement::After, 0, "10".to_string());

        assert_eq!(
            to_vec(&tree),
            vec![
                (0, false, "Parent".to_string(), 4, 5),
                (1, false, "1".to_string(), 0, 1),
                (1, false, "2".to_string(), 0, 1),
                (1, false, "3".to_string(), 0, 1),
                (1, false, "4".to_string(), 0, 1),
                (0, false, "10".to_string(), 0, 1),
                (0, false, "11".to_string(), 0, 1),
                (0, false, "12".to_string(), 0, 1)
            ]
        );

        tree.insert_item(Placement::After, 6, "after".to_string());

        assert_eq!(
            to_vec(&tree),
            vec![
                (0, false, "Parent".to_string(), 4, 5),
                (1, false, "1".to_string(), 0, 1),
                (1, false, "2".to_string(), 0, 1),
                (1, false, "3".to_string(), 0, 1),
                (1, false, "4".to_string(), 0, 1),
                (0, false, "10".to_string(), 0, 1),
                (0, false, "11".to_string(), 0, 1),
                (0, false, "after".to_string(), 0, 1),
                (0, false, "12".to_string(), 0, 1)
            ]
        );
    }

#[test]
    fn test_insert_before_flat() {

        let mut tree = TreeList::<String>::new();
        assert_eq!(
            tree.insert_item(Placement::Before, 0, "4".to_string()),
            Some(0)
        );
        assert_eq!(
            tree.insert_item(Placement::Before, 0, "1".to_string()),
            Some(0)
        );
        assert_eq!(
            tree.insert_item(Placement::Before, 1, "2".to_string()),
            Some(1)
        );
        assert_eq!(
            tree.insert_item(Placement::Before, 2, "3".to_string()),
            Some(2)
        );

        assert_eq!(
            to_vec(&tree),
            vec![
                (0, false, "1".to_string(), 0, 1),
                (0, false, "2".to_string(), 0, 1),
                (0, false, "3".to_string(), 0, 1),
                (0, false, "4".to_string(), 0, 1)
            ]
        );

        assert_eq!(tree.len(), 4);
        assert_eq!(tree.height(), 4);
    }

#[test]
    fn test_insert_before_nested() {

        let mut tree = TreeList::<String>::new();
        tree.insert_item(Placement::Before, 0, "Parent".to_string());
        tree.insert_item(Placement::LastChild, 0, "4".to_string());
        tree.insert_item(Placement::Before, 1, "1".to_string());
        tree.insert_item(Placement::Before, 2, "2".to_string());
        tree.insert_item(Placement::Before, 3, "3".to_string());

        assert_eq!(
            to_vec(&tree),
            vec![
                (0, false, "Parent".to_string(), 4, 5),
                (1, false, "1".to_string(), 0, 1),
                (1, false, "2".to_string(), 0, 1),
                (1, false, "3".to_string(), 0, 1),
                (1, false, "4".to_string(), 0, 1)
            ]
        );

        assert_eq!(tree.len(), 5);
        assert_eq!(tree.height(), 5);
    }

#[test]
    fn test_insert_last_child() {

        let mut tree = TreeList::<String>::new();
        tree.insert_item(Placement::LastChild, 0, "1".to_string());
        tree.insert_item(Placement::LastChild, 0, "2".to_string());
        tree.insert_item(Placement::LastChild, 1, "3".to_string());
        tree.insert_item(Placement::LastChild, 2, "4".to_string());
        tree.insert_item(Placement::LastChild, 3, "5".to_string());

        assert_eq!(
            to_vec(&tree),
            vec![
                (0, false, "1".to_string(), 4, 5),
                (1, false, "2".to_string(), 3, 4),
                (2, false, "3".to_string(), 2, 3),
                (3, false, "4".to_string(), 1, 2),
                (4, false, "5".to_string(), 0, 1)
            ]
        );

        assert_eq!(tree.len(), 5);
        assert_eq!(tree.height(), 5);
    }

#[test]
    fn test_insert_last_child_double() {

        let mut tree = TreeList::<String>::new();
        tree.insert_item(Placement::LastChild, 0, "1".to_string());

        assert_eq!(
            tree.insert_item(Placement::LastChild, 0, "2a".to_string()),
            Some(1)
        );
        assert_eq!(
            tree.insert_item(Placement::LastChild, 1, "3a".to_string()),
            Some(2)
        );
        assert_eq!(
            tree.insert_item(Placement::LastChild, 2, "4a".to_string()),
            Some(3)
        );

        assert_eq!(
            tree.insert_item(Placement::LastChild, 0, "2b".to_string()),
            Some(4)
        );
        assert_eq!(
            tree.insert_item(Placement::LastChild, 4, "3b".to_string()),
            Some(5)
        );
        assert_eq!(
            tree.insert_item(Placement::LastChild, 5, "4b".to_string()),
            Some(6)
        );

        assert_eq!(
            to_vec(&tree),
            vec![
                (0, false, "1".to_string(), 6, 7),
                (1, false, "2a".to_string(), 2, 3),
                (2, false, "3a".to_string(), 1, 2),
                (3, false, "4a".to_string(), 0, 1),
                (1, false, "2b".to_string(), 2, 3),
                (2, false, "3b".to_string(), 1, 2),
                (3, false, "4b".to_string(), 0, 1)
            ]
        );

        assert_eq!(tree.len(), 7);
        assert_eq!(tree.height(), 7);
    }

#[test]
    fn test_insert_first_child() {

        let mut tree = TreeList::<String>::new();
        tree.insert_item(Placement::FirstChild, 0, "1".to_string());
        tree.insert_item(Placement::FirstChild, 0, "2".to_string());
        tree.insert_item(Placement::FirstChild, 1, "3".to_string());
        tree.insert_item(Placement::FirstChild, 2, "4".to_string());
        tree.insert_item(Placement::FirstChild, 3, "5".to_string());

        assert_eq!(
            to_vec(&tree),
            vec![
                (0, false, "1".to_string(), 4, 5),
                (1, false, "2".to_string(), 3, 4),
                (2, false, "3".to_string(), 2, 3),
                (3, false, "4".to_string(), 1, 2),
                (4, false, "5".to_string(), 0, 1)
            ]
        );

        assert_eq!(tree.len(), 5);
        assert_eq!(tree.height(), 5);
    }

#[test]
    fn test_insert_first_child_double() {

        let mut tree = TreeList::<String>::new();
        tree.insert_item(Placement::FirstChild, 0, "1".to_string());

        assert_eq!(
            tree.insert_item(Placement::FirstChild, 0, "2a".to_string()),
            Some(1)
        );
        assert_eq!(
            tree.insert_item(Placement::FirstChild, 1, "3a".to_string()),
            Some(2)
        );
        assert_eq!(
            tree.insert_item(Placement::FirstChild, 2, "4a".to_string()),
            Some(3)
        );

        assert_eq!(
            tree.insert_item(Placement::FirstChild, 0, "2b".to_string()),
            Some(1)
        );
        assert_eq!(
            tree.insert_item(Placement::FirstChild, 1, "3b".to_string()),
            Some(2)
        );
        assert_eq!(
            tree.insert_item(Placement::FirstChild, 2, "4b".to_string()),
            Some(3)
        );
        assert_eq!(
            to_vec(&tree),
            vec![
                (0, false, "1".to_string(), 6, 7),
                (1, false, "2b".to_string(), 2, 3),
                (2, false, "3b".to_string(), 1, 2),
                (3, false, "4b".to_string(), 0, 1),
                (1, false, "2a".to_string(), 2, 3),
                (2, false, "3a".to_string(), 1, 2),
                (3, false, "4a".to_string(), 0, 1)
            ]
        );

        assert_eq!(tree.len(), 7);
        assert_eq!(tree.height(), 7);
    }

#[test]
    fn test_insert_first_child_multiple() {

        let mut tree = TreeList::<String>::new();
        tree.insert_item(Placement::FirstChild, 0, "1".to_string());
        tree.insert_item(Placement::FirstChild, 0, "2".to_string());
        tree.insert_item(Placement::FirstChild, 1, "5".to_string());
        tree.insert_item(Placement::FirstChild, 1, "4".to_string());
        tree.insert_item(Placement::FirstChild, 1, "3".to_string());

        assert_eq!(
            to_vec(&tree),
            vec![
                (0, false, "1".to_string(), 4, 5),
                (1, false, "2".to_string(), 3, 4),
                (2, false, "3".to_string(), 0, 1),
                (2, false, "4".to_string(), 0, 1),
                (2, false, "5".to_string(), 0, 1)
            ]
        );

        assert_eq!(tree.len(), 5);
        assert_eq!(tree.height(), 5);
    }

#[test]
    fn test_insert_parent() {

        let mut tree = TreeList::<String>::new();
        assert_eq!(
            tree.insert_item(Placement::Parent, 0, "5".to_string()),
            Some(0)
        );
        assert_eq!(
            tree.insert_item(Placement::Parent, 0, "4".to_string()),
            Some(0)
        );
        assert_eq!(
            tree.insert_item(Placement::Parent, 0, "3".to_string()),
            Some(0)
        );
        assert_eq!(
            tree.insert_item(Placement::Parent, 0, "2".to_string()),
            Some(0)
        );
        assert_eq!(
            tree.insert_item(Placement::Parent, 0, "1".to_string()),
            Some(0)
        );

        assert_eq!(
            to_vec(&tree),
            vec![
                (0, false, "1".to_string(), 4, 5),
                (1, false, "2".to_string(), 3, 4),
                (2, false, "3".to_string(), 2, 3),
                (3, false, "4".to_string(), 1, 2),
                (4, false, "5".to_string(), 0, 1)
            ]
        );

        assert_eq!(tree.len(), 5);
        assert_eq!(tree.height(), 5);
    }

#[test]
    fn test_insert_parent_siblings() {

        let mut tree = TreeList::<String>::new();
        tree.insert_item(Placement::After, 0, "Root".to_string());
        tree.insert_item(Placement::LastChild, 1, "1".to_string());
        tree.insert_item(Placement::After, 1, "6".to_string());
        tree.insert_item(Placement::After, 1, "5".to_string());
        tree.insert_item(Placement::After, 1, "4".to_string());
        tree.insert_item(Placement::After, 1, "3".to_string());
        tree.insert_item(Placement::After, 1, "2".to_string());

        assert_eq!(
            to_vec(&tree),
            vec![
                (0, false, "Root".to_string(), 6, 7),
                (1, false, "1".to_string(), 0, 1),
                (1, false, "2".to_string(), 0, 1),
                (1, false, "3".to_string(), 0, 1),
                (1, false, "4".to_string(), 0, 1),
                (1, false, "5".to_string(), 0, 1),
                (1, false, "6".to_string(), 0, 1)
            ]
        );

        assert_eq!(tree.len(), 7);
        assert_eq!(tree.height(), 7);

        tree.insert_item(Placement::Parent, 3, "Parent".to_string());

        assert_eq!(
            to_vec(&tree),
            vec![
                (0, false, "Root".to_string(), 7, 8),
                (1, false, "1".to_string(), 0, 1),
                (1, false, "2".to_string(), 0, 1),
                (1, false, "Parent".to_string(), 1, 2),
                (2, false, "3".to_string(), 0, 1),
                (1, false, "4".to_string(), 0, 1),
                (1, false, "5".to_string(), 0, 1),
                (1, false, "6".to_string(), 0, 1)
            ]
        );

        assert_eq!(tree.len(), 8);
        assert_eq!(tree.height(), 8);
    }

#[test]
    fn test_insert_parent_between() {

        let mut tree = TreeList::<String>::new();
        tree.insert_item(Placement::LastChild, 0, "1".to_string());
        tree.insert_item(Placement::LastChild, 0, "2".to_string());
        tree.insert_item(Placement::LastChild, 1, "8".to_string());

        tree.insert_item(Placement::Parent, 2, "7".to_string());
        tree.insert_item(Placement::Parent, 2, "6".to_string());
        tree.insert_item(Placement::Parent, 2, "5".to_string());
        tree.insert_item(Placement::Parent, 2, "4".to_string());
        tree.insert_item(Placement::Parent, 2, "3".to_string());

        assert_eq!(
            to_vec(&tree),
            vec![
                (0, false, "1".to_string(), 7, 8),
                (1, false, "2".to_string(), 6, 7),
                (2, false, "3".to_string(), 5, 6),
                (3, false, "4".to_string(), 4, 5),
                (4, false, "5".to_string(), 3, 4),
                (5, false, "6".to_string(), 2, 3),
                (6, false, "7".to_string(), 1, 2),
                (7, false, "8".to_string(), 0, 1)
            ]
        );

        assert_eq!(tree.len(), 8);
        assert_eq!(tree.height(), 8);
    }

#[test]
    fn test_insert_before_child() {

        let mut tree = TreeList::<String>::new();
        tree.insert_item(Placement::Before, 0, "Parent".to_string());
        tree.insert_item(Placement::LastChild, 0, "LastChild 1".to_string());
        tree.insert_item(Placement::LastChild, 0, "LastChild 2".to_string());
        tree.insert_item(Placement::LastChild, 2, "Nested LastChild".to_string());
        tree.insert_item(Placement::Before, 2, "Before".to_string());

        assert_eq!(
            to_vec(&tree),
            vec![
                (0, false, "Parent".to_string(), 4, 5),
                (1, false, "LastChild 1".to_string(), 0, 1),
                (1, false, "Before".to_string(), 0, 1),
                (1, false, "LastChild 2".to_string(), 1, 2),
                (2, false, "Nested LastChild".to_string(), 0, 1)
            ]
        );

        assert_eq!(tree.len(), 5);
        assert_eq!(tree.height(), 5);
    }

#[test]
    fn test_insert_after_child() {

        let mut tree = TreeList::<String>::new();
        tree.insert_item(Placement::After, 0, "Parent".to_string());
        tree.insert_item(Placement::LastChild, 0, "LastChild 1".to_string());
        tree.insert_item(Placement::LastChild, 0, "LastChild 2".to_string());
        tree.insert_item(Placement::LastChild, 2, "Nested LastChild".to_string());
        tree.insert_item(Placement::After, 1, "After".to_string());

        assert_eq!(
            to_vec(&tree),
            vec![
                (0, false, "Parent".to_string(), 4, 5),
                (1, false, "LastChild 1".to_string(), 0, 1),
                (1, false, "After".to_string(), 0, 1),
                (1, false, "LastChild 2".to_string(), 1, 2),
                (2, false, "Nested LastChild".to_string(), 0, 1)
            ]
        );

        assert_eq!(tree.len(), 5);
        assert_eq!(tree.height(), 5);
    }

#[test]
    fn test_insert_after_children() {

        let mut tree = TreeList::<String>::new();
        tree.insert_item(Placement::After, 0, "Parent".to_string());
        tree.insert_item(Placement::LastChild, 0, "LastChild 1".to_string());
        tree.insert_item(Placement::LastChild, 0, "LastChild 2".to_string());
        tree.insert_item(Placement::LastChild, 2, "Nested LastChild".to_string());
        tree.insert_item(Placement::After, 0, "After Parent".to_string());
        tree.insert_item(Placement::After, 0, "After Parent 2".to_string());
        tree.insert_item(Placement::After, 2, "After LastChild 2".to_string());

        assert_eq!(
            to_vec(&tree),
            vec![
                (0, false, "Parent".to_string(), 4, 5),
                (1, false, "LastChild 1".to_string(), 0, 1),
                (1, false, "LastChild 2".to_string(), 1, 2),
                (2, false, "Nested LastChild".to_string(), 0, 1),
                (1, false, "After LastChild 2".to_string(), 0, 1),
                (0, false, "After Parent 2".to_string(), 0, 1),
                (0, false, "After Parent".to_string(), 0, 1)
            ]
        );

        assert_eq!(tree.len(), 7);
        assert_eq!(tree.height(), 7);
    }

#[test]
    fn test_collapse_and_row_to_item_index() {

        let mut tree = TreeList::<String>::new();
        tree.insert_item(Placement::LastChild, 0, "1".to_string());

        tree.insert_item(Placement::LastChild, 0, "2a".to_string());
        tree.insert_item(Placement::LastChild, 1, "3a".to_string());
        tree.insert_item(Placement::LastChild, 2, "4a".to_string());

        tree.insert_item(Placement::LastChild, 0, "2b".to_string());
        tree.insert_item(Placement::LastChild, 4, "3b".to_string());
        tree.insert_item(Placement::LastChild, 5, "4b".to_string());

        assert_eq!(
            to_vec(&tree),
            vec![
                (0, false, "1".to_string(), 6, 7),
                (1, false, "2a".to_string(), 2, 3),
                (2, false, "3a".to_string(), 1, 2),
                (3, false, "4a".to_string(), 0, 1),
                (1, false, "2b".to_string(), 2, 3),
                (2, false, "3b".to_string(), 1, 2),
                (3, false, "4b".to_string(), 0, 1)
            ]
        );

        assert_eq!(tree.len(), 7);
        assert_eq!(tree.height(), 7);

        assert_eq!(tree.row_to_item_index(0), 0);
        assert_eq!(tree.row_to_item_index(1), 1);
        assert_eq!(tree.row_to_item_index(4), 4);

        tree.set_collapsed(1, true);

        assert_eq!(
            to_vec(&tree),
            vec![
                (0, false, "1".to_string(), 6, 5),
                (1, true, "2a".to_string(), 2, 1),
                (1, false, "2b".to_string(), 2, 3),
                (2, false, "3b".to_string(), 1, 2),
                (3, false, "4b".to_string(), 0, 1)
            ]
        );

        assert_eq!(tree.len(), 7);
        assert_eq!(tree.height(), 5);

        assert_eq!(tree.row_to_item_index(0), 0);
        assert_eq!(tree.row_to_item_index(1), 1);
        assert_eq!(tree.row_to_item_index(2), 4);

        tree.set_collapsed(4, true);

        assert_eq!(
            to_vec(&tree),
            vec![
                (0, false, "1".to_string(), 6, 3),
                (1, true, "2a".to_string(), 2, 1),
                (1, true, "2b".to_string(), 2, 1)
            ]
        );

        assert_eq!(tree.len(), 7);
        assert_eq!(tree.height(), 3);

        assert_eq!(tree.row_to_item_index(0), 0);
        assert_eq!(tree.row_to_item_index(1), 1);
        assert_eq!(tree.row_to_item_index(2), 4);

        tree.set_collapsed(1, false);
        assert_eq!(
            to_vec(&tree),
            vec![
                (0, false, "1".to_string(), 6, 5),
                (1, false, "2a".to_string(), 2, 3),
                (2, false, "3a".to_string(), 1, 2),
                (3, false, "4a".to_string(), 0, 1),
                (1, true, "2b".to_string(), 2, 1)
            ]
        );

        assert_eq!(tree.len(), 7);
        assert_eq!(tree.height(), 5);

        assert_eq!(tree.row_to_item_index(4), 4);

        tree.set_collapsed(4, false);

        assert_eq!(
            to_vec(&tree),
            vec![
                (0, false, "1".to_string(), 6, 7),
                (1, false, "2a".to_string(), 2, 3),
                (2, false, "3a".to_string(), 1, 2),
                (3, false, "4a".to_string(), 0, 1),
                (1, false, "2b".to_string(), 2, 3),
                (2, false, "3b".to_string(), 1, 2),
                (3, false, "4b".to_string(), 0, 1)
            ]
        );

        assert_eq!(tree.len(), 7);
        assert_eq!(tree.height(), 7);
    }

#[test]
    fn test_collapse_multiple() {

        let mut tree = TreeList::<String>::new();
        tree.insert_item(Placement::LastChild, 0, "1".to_string());
        tree.insert_item(Placement::LastChild, 0, "2".to_string());
        tree.insert_item(Placement::LastChild, 1, "3".to_string());
        tree.insert_item(Placement::LastChild, 2, "4".to_string());
        tree.insert_item(Placement::LastChild, 3, "5".to_string());

        assert_eq!(
            to_vec(&tree),
            vec![
                (0, false, "1".to_string(), 4, 5),
                (1, false, "2".to_string(), 3, 4),
                (2, false, "3".to_string(), 2, 3),
                (3, false, "4".to_string(), 1, 2),
                (4, false, "5".to_string(), 0, 1)
            ]
        );

        assert_eq!(tree.len(), 5);
        assert_eq!(tree.height(), 5);

        tree.set_collapsed(3, true);
        assert_eq!(tree.len(), 5);
        assert_eq!(tree.height(), 4);
        assert_eq!(
            to_vec(&tree),
            vec![
                (0, false, "1".to_string(), 4, 4),
                (1, false, "2".to_string(), 3, 3),
                (2, false, "3".to_string(), 2, 2),
                (3, true, "4".to_string(), 1, 1)
            ]
        );

        tree.set_collapsed(1, true);
        assert_eq!(tree.len(), 5);
        assert_eq!(tree.height(), 2);
        assert_eq!(
            to_vec(&tree),
            vec![
                (0, false, "1".to_string(), 4, 2),
                (1, true, "2".to_string(), 3, 1)
            ]
        );

        tree.set_collapsed(1, false);
        assert_eq!(tree.len(), 5);
        assert_eq!(tree.height(), 4);
        assert_eq!(
            to_vec(&tree),
            vec![
                (0, false, "1".to_string(), 4, 4),
                (1, false, "2".to_string(), 3, 3),
                (2, false, "3".to_string(), 2, 2),
                (3, true, "4".to_string(), 1, 1)
            ]
        );

        tree.set_collapsed(3, false);
        assert_eq!(tree.len(), 5);
        assert_eq!(tree.height(), 5);
        assert_eq!(
            to_vec(&tree),
            vec![
                (0, false, "1".to_string(), 4, 5),
                (1, false, "2".to_string(), 3, 4),
                (2, false, "3".to_string(), 2, 3),
                (3, false, "4".to_string(), 1, 2),
                (4, false, "5".to_string(), 0, 1)
            ]
        );
    }

#[test]
    fn test_collapse_multiple_nested() {

        let mut tree = TreeList::<String>::new();
        tree.insert_item(Placement::LastChild, 0, "1".to_string());

        tree.insert_item(Placement::LastChild, 0, "2a".to_string());
        tree.insert_item(Placement::LastChild, 1, "3a".to_string());
        tree.insert_item(Placement::LastChild, 2, "4a".to_string());

        tree.insert_item(Placement::LastChild, 0, "2b".to_string());
        tree.insert_item(Placement::LastChild, 4, "3b".to_string());
        tree.insert_item(Placement::LastChild, 5, "4b".to_string());

        assert_eq!(
            to_vec(&tree),
            vec![
                (0, false, "1".to_string(), 6, 7),
                (1, false, "2a".to_string(), 2, 3),
                (2, false, "3a".to_string(), 1, 2),
                (3, false, "4a".to_string(), 0, 1),
                (1, false, "2b".to_string(), 2, 3),
                (2, false, "3b".to_string(), 1, 2),
                (3, false, "4b".to_string(), 0, 1)
            ]
        );

        let indicies: Vec<usize> = (0..tree.height())
            .map(|row| tree.row_to_item_index(row))
            .collect();

        assert_eq!(indicies, vec![0, 1, 2, 3, 4, 5, 6]);

        tree.set_collapsed(2, true);
        tree.set_collapsed(1, true);

        let indicies: Vec<usize> = (0..tree.height())
            .map(|row| tree.row_to_item_index(row))
            .collect();

        assert_eq!(indicies, vec![0, 1, 4, 5, 6]);
    }

#[test]
    fn test_insert_after_collapsed() {

        let mut tree = TreeList::<String>::new();
        tree.insert_item(Placement::LastChild, 0, "1".to_string());
        tree.insert_item(Placement::LastChild, 0, "2a".to_string());
        tree.insert_item(Placement::LastChild, 1, "3a".to_string());
        tree.insert_item(Placement::LastChild, 2, "4a".to_string());

        tree.set_collapsed(0, true);

        assert_eq!(to_vec(&tree), vec![(0, true, "1".to_string(), 3, 1)]);

        let i = tree.row_to_item_index(0);
        assert_eq!(
            tree.insert_item(Placement::After, i, "5".to_string()),
            Some(1)
        );

        assert_eq!(
            to_vec(&tree),
            vec![
                (0, true, "1".to_string(), 3, 1),
                (0, false, "5".to_string(), 0, 1)
            ]
        );

        let i = tree.row_to_item_index(1);
        assert_eq!(
            tree.insert_item(Placement::LastChild, i, "6a".to_string()),
            Some(2)
        );

        let i = tree.row_to_item_index(1);
        assert_eq!(
            tree.insert_item(Placement::LastChild, i, "7".to_string()),
            Some(3)
        );

        let i = tree.row_to_item_index(1);
        tree.set_collapsed(i, true);

        assert_eq!(
            tree.insert_item(Placement::After, i, "8".to_string()),
            Some(2)
        );
    }

#[test]
    fn test_remove_with_children() {

        let mut tree = TreeList::<String>::new();
        tree.insert_item(Placement::LastChild, 0, "1".to_string());
        tree.insert_item(Placement::LastChild, 0, "2".to_string());
        tree.insert_item(Placement::LastChild, 1, "3".to_string());
        tree.insert_item(Placement::LastChild, 2, "4".to_string());
        tree.insert_item(Placement::LastChild, 3, "5".to_string());

        assert_eq!(
            to_vec(&tree),
            vec![
                (0, false, "1".to_string(), 4, 5),
                (1, false, "2".to_string(), 3, 4),
                (2, false, "3".to_string(), 2, 3),
                (3, false, "4".to_string(), 1, 2),
                (4, false, "5".to_string(), 0, 1)
            ]
        );

        assert_eq!(tree.len(), 5);
        assert_eq!(tree.height(), 5);

        assert_eq!(
            tree.remove_with_children(2),
            Some(vec!["3".to_string(), "4".to_string(), "5".to_string()])
        );

        assert_eq!(tree.len(), 2);
        assert_eq!(tree.height(), 2);
        assert_eq!(
            to_vec(&tree),
            vec![
                (0, false, "1".to_string(), 1, 2),
                (1, false, "2".to_string(), 0, 1)
            ]
        );

        assert_eq!(tree.remove_with_children(1), Some(vec!["2".to_string()]));

        assert_eq!(tree.len(), 1);
        assert_eq!(tree.height(), 1);
        assert_eq!(to_vec(&tree), vec![(0, false, "1".to_string(), 0, 1)]);
    }

#[test]
    fn test_remove_with_children_flat() {

        let mut tree = TreeList::<String>::new();
        tree.insert_item(Placement::Before, 0, "4".to_string());
        tree.insert_item(Placement::Before, 0, "1".to_string());
        tree.insert_item(Placement::Before, 1, "2".to_string());
        tree.insert_item(Placement::Before, 2, "3".to_string());

        assert_eq!(
            to_vec(&tree),
            vec![
                (0, false, "1".to_string(), 0, 1),
                (0, false, "2".to_string(), 0, 1),
                (0, false, "3".to_string(), 0, 1),
                (0, false, "4".to_string(), 0, 1)
            ]
        );

        assert_eq!(tree.len(), 4);
        assert_eq!(tree.height(), 4);

        assert_eq!(tree.remove_with_children(1), Some(vec!["2".to_string()]));
        assert_eq!(tree.len(), 3);
        assert_eq!(tree.height(), 3);

        assert_eq!(tree.remove_with_children(1), Some(vec!["3".to_string()]));
        assert_eq!(tree.len(), 2);
        assert_eq!(tree.height(), 2);
    }

#[test]
    fn test_remove_with_children_collapsed() {

        let mut tree = TreeList::<String>::new();
        tree.insert_item(Placement::LastChild, 0, "1".to_string());
        tree.insert_item(Placement::LastChild, 0, "2".to_string());
        tree.insert_item(Placement::LastChild, 1, "3".to_string());
        tree.insert_item(Placement::LastChild, 2, "4".to_string());
        tree.insert_item(Placement::LastChild, 3, "5".to_string());

        tree.set_collapsed(2, true);

        assert_eq!(
            to_vec(&tree),
            vec![
                (0, false, "1".to_string(), 4, 3),
                (1, false, "2".to_string(), 3, 2),
                (2, true, "3".to_string(), 2, 1)
            ]
        );

        assert_eq!(tree.len(), 5);
        assert_eq!(tree.height(), 3);

        assert_eq!(
            tree.remove_with_children(2),
            Some(vec!["3".to_string(), "4".to_string(), "5".to_string()])
        );

        assert_eq!(tree.len(), 2);
        assert_eq!(tree.height(), 2);
    }

#[test]
    fn test_insert_child_when_collapsed() {

        let mut tree = TreeList::<String>::new();
        tree.insert_item(Placement::LastChild, 0, "1".to_string());
        tree.insert_item(Placement::LastChild, 0, "2".to_string());

        tree.set_collapsed(1, true);

        assert_eq!(
            to_vec(&tree),
            vec![
                (0, false, "1".to_string(), 1, 2),
                (1, true, "2".to_string(), 0, 1),
            ]
        );

        assert_eq!(tree.len(), 2);
        assert_eq!(tree.height(), 2);

        assert_eq!(
            tree.insert_item(Placement::LastChild, 1, "3".to_string()),
            None
        );

        assert_eq!(
            to_vec(&tree),
            vec![
                (0, false, "1".to_string(), 2, 2),
                (1, true, "2".to_string(), 1, 1)
            ]
        );
        assert_eq!(tree.len(), 3);
        assert_eq!(tree.height(), 2);

        tree.set_collapsed(1, false);

        assert_eq!(
            to_vec(&tree),
            vec![
                (0, false, "1".to_string(), 2, 3),
                (1, false, "2".to_string(), 1, 2),
                (2, false, "3".to_string(), 0, 1)
            ]
        );

        assert_eq!(tree.len(), 3);
        assert_eq!(tree.height(), 3);
    }

#[test]
    fn test_remove_child_when_collapsed() {

        let mut tree = TreeList::<String>::new();
        tree.insert_item(Placement::LastChild, 0, "1".to_string());
        tree.insert_item(Placement::LastChild, 0, "2".to_string());
        tree.insert_item(Placement::LastChild, 1, "3".to_string());
        tree.insert_item(Placement::LastChild, 1, "4".to_string());
        tree.insert_item(Placement::After, 0, "5".to_string());

        tree.set_collapsed(1, true);

        assert_eq!(
            to_vec(&tree),
            vec![
                (0, false, "1".to_string(), 3, 2),
                (1, true, "2".to_string(), 2, 1),
                (0, false, "5".to_string(), 0, 1)
            ]
        );

        assert_eq!(tree.len(), 5);
        assert_eq!(tree.height(), 3);

        assert_eq!(
            tree.remove_children(1),
            Some(vec!["3".to_string(), "4".to_string()])
        );

        assert_eq!(
            to_vec(&tree),
            vec![
                (0, false, "1".to_string(), 1, 2),
                (1, true, "2".to_string(), 0, 1),
                (0, false, "5".to_string(), 0, 1)
            ]
        );

        assert_eq!(tree.len(), 3);
        assert_eq!(tree.height(), 3);
    }

#[test]
    fn test_collapse_within_collapsed_parent() {

        let mut tree = TreeList::<String>::new();
        tree.insert_item(Placement::LastChild, 0, "1".to_string());
        tree.insert_item(Placement::LastChild, 0, "2".to_string());
        tree.insert_item(Placement::LastChild, 1, "3".to_string());
        tree.insert_item(Placement::LastChild, 1, "4".to_string());

        tree.set_collapsed(0, true);

        assert_eq!(to_vec(&tree), vec![(0, true, "1".to_string(), 3, 1),]);

        assert_eq!(tree.len(), 4);
        assert_eq!(tree.height(), 1);

        println!("foo");
        tree.set_collapsed(1, true);
        assert_eq!(to_vec(&tree), vec![(0, true, "1".to_string(), 3, 1),]);

        assert_eq!(tree.len(), 4);
        assert_eq!(tree.height(), 1);

        println!("bar");
        tree.set_collapsed(0, false);

        assert_eq!(
            to_vec(&tree),
            vec![
                (0, false, "1".to_string(), 3, 2),
                (1, true, "2".to_string(), 2, 1)
            ]
        );

        assert_eq!(tree.len(), 4);
        assert_eq!(tree.height(), 2);
    }

#[test]
    fn test_insert_container_collapse() {

        let mut tree = TreeList::<String>::new();
        tree.insert_container_item(Placement::LastChild, 0, "1".to_string());

        assert_eq!(to_vec(&tree), vec![(0, true, "1".to_string(), 0, 1)]);

        assert_eq!(tree.len(), 1);
        assert_eq!(tree.height(), 1);

        tree.set_collapsed(0, false);

        assert_eq!(to_vec(&tree), vec![(0, false, "1".to_string(), 0, 1)]);
    }

#[test]
fn test_chain_counts_and_heights() {
    let mut tree = TreeList::<String>::new();
    tree.insert_item(Placement::LastChild, 0, "1".to_string());
    tree.insert_item(Placement::LastChild, 0, "2".to_string());
    tree.insert_item(Placement::LastChild, 1, "3".to_string());
    tree.insert_item(Placement::LastChild, 2, "4".to_string());

    assert_eq!(
        to_vec(&tree),
        vec![
            (0, false, "1".to_string(), 3, 4),
            (1, false, "2".to_string(), 2, 3),
            (2, false, "3".to_string(), 1, 2),
            (3, false, "4".to_string(), 0, 1)
        ]
    );
    assert_eq!(tree.height(), 4);
}

#[test]
fn test_collapse_second_of_chain_rows() {
    let mut tree = TreeList::<String>::new();
    tree.insert_item(Placement::LastChild, 0, "1".to_string());
    tree.insert_item(Placement::LastChild, 0, "2".to_string());
    tree.insert_item(Placement::LastChild, 1, "3".to_string());
    tree.insert_item(Placement::LastChild, 2, "4".to_string());
    tree.insert_item(Placement::LastChild, 3, "5".to_string());

    tree.set_collapsed(1, true);

    assert_eq!(tree.get_children(1), 3);
    assert_eq!(tree.height(), 2);
    assert_eq!(tree.row_to_item_index(0), 0);
    assert_eq!(tree.row_to_item_index(1), 1);
    assert_eq!(tree.row_to_item_index(2), 5);
}

#[test]
fn test_row_translation_round_trip() {
    let mut tree = TreeList::<String>::new();
    tree.insert_item(Placement::LastChild, 0, "a".to_string());
    tree.insert_item(Placement::LastChild, 0, "b".to_string());
    tree.insert_item(Placement::After, 1, "c".to_string());
    tree.insert_item(Placement::LastChild, 2, "d".to_string());
    tree.set_collapsed(2, true);

    for row in 0..tree.height() {
        let index = tree.row_to_item_index(row);
        assert_eq!(tree.item_index_to_row(index), row);
    }
}

#[test]
fn test_collapse_twice_same_as_once() {
    let mut tree = TreeList::<String>::new();
    tree.insert_item(Placement::LastChild, 0, "a".to_string());
    tree.insert_item(Placement::LastChild, 0, "b".to_string());
    let mut twice = TreeList::<String>::new();
    twice.insert_item(Placement::LastChild, 0, "a".to_string());
    twice.insert_item(Placement::LastChild, 0, "b".to_string());

    tree.set_collapsed(0, true);
    twice.set_collapsed(0, true);
    twice.set_collapsed(0, true);

    assert_eq!(to_vec(&tree), to_vec(&twice));
    assert_eq!(tree.height(), twice.height());
}

#[test]
fn test_collapse_expand_restores_counts() {
    let mut tree = TreeList::<String>::new();
    tree.insert_item(Placement::LastChild, 0, "a".to_string());
    tree.insert_item(Placement::LastChild, 0, "b".to_string());
    tree.insert_item(Placement::LastChild, 1, "c".to_string());
    let before = to_vec(&tree);
    let height_before = tree.height();

    tree.set_collapsed(1, true);
    tree.set_collapsed(1, false);

    assert_eq!(to_vec(&tree), before);
    assert_eq!(tree.height(), height_before);
}

#[test]
    fn test_remove_flat() {

        let mut tree = TreeList::<String>::new();
        tree.insert_item(Placement::Before, 0, "4".to_string());
        tree.insert_item(Placement::Before, 0, "1".to_string());
        tree.insert_item(Placement::Before, 1, "2".to_string());
        tree.insert_item(Placement::Before, 2, "3".to_string());

        assert_eq!(
            to_vec(&tree),
            vec![
                (0, false, "1".to_string(), 0, 1),
                (0, false, "2".to_string(), 0, 1),
                (0, false, "3".to_string(), 0, 1),
                (0, false, "4".to_string(), 0, 1)
            ]
        );

        assert_eq!(tree.len(), 4);
        assert_eq!(tree.height(), 4);

        assert_eq!(tree.remove(1), Some("2".to_string()));
        assert_eq!(tree.len(), 3);
        assert_eq!(tree.height(), 3);
        assert_eq!(
            to_vec(&tree),
            vec![
                (0, false, "1".to_string(), 0, 1),
                (0, false, "3".to_string(), 0, 1),
                (0, false, "4".to_string(), 0, 1)
            ]
        );

        assert_eq!(tree.remove(1), Some("3".to_string()));
        assert_eq!(tree.len(), 2);
        assert_eq!(tree.height(), 2);
        assert_eq!(
            to_vec(&tree),
            vec![
                (0, false, "1".to_string(), 0, 1),
                (0, false, "4".to_string(), 0, 1)
            ]
        );

        assert_eq!(tree.remove(0), Some("1".to_string()));
        assert_eq!(tree.len(), 1);
        assert_eq!(tree.height(), 1);
        assert_eq!(to_vec(&tree), vec![(0, false, "4".to_string(), 0, 1)]);

        assert_eq!(tree.remove(0), Some("4".to_string()));
        assert_eq!(tree.len(), 0);
        assert_eq!(tree.height(), 0);
        assert_eq!(to_vec(&tree), vec![]);
    }

#[test]
    fn test_remove_children() {

        let mut tree = TreeList::<String>::new();
        tree.insert_item(Placement::LastChild, 0, "1".to_string());
        tree.insert_item(Placement::LastChild, 0, "2".to_string());
        tree.insert_item(Placement::LastChild, 1, "3".to_string());
        tree.insert_item(Placement::LastChild, 2, "4".to_string());
        tree.insert_item(Placement::LastChild, 3, "5".to_string());

        assert_eq!(
            to_vec(&tree),
            vec![
                (0, false, "1".to_string(), 4, 5),
                (1, false, "2".to_string(), 3, 4),
                (2, false, "3".to_string(), 2, 3),
                (3, false, "4".to_string(), 1, 2),
                (4, false, "5".to_string(), 0, 1)
            ]
        );

        assert_eq!(tree.len(), 5);
        assert_eq!(tree.height(), 5);

        assert_eq!(tree.remove(2), Some("3".to_string()));
        assert_eq!(tree.len(), 4);
        assert_eq!(tree.height(), 4);
        assert_eq!(
            to_vec(&tree),
            vec![
                (0, false, "1".to_string(), 3, 4),
                (1, false, "2".to_string(), 2, 3),
                (2, false, "4".to_string(), 1, 2),
                (3, false, "5".to_string(), 0, 1)
            ]
        );

        assert_eq!(tree.remove(2), Some("4".to_string()));
        assert_eq!(tree.len(), 3);
        assert_eq!(tree.height(), 3);
        assert_eq!(
            to_vec(&tree),
            vec![
                (0, false, "1".to_string(), 2, 3),
                (1, false, "2".to_string(), 1, 2),
                (2, false, "5".to_string(), 0, 1)
            ]
        );

        assert_eq!(tree.remove(0), Some("1".to_string()));
        assert_eq!(tree.len(), 2);
        assert_eq!(tree.height(), 2);
        assert_eq!(
            to_vec(&tree),
            vec![
                (0, false, "2".to_string(), 1, 2),
                (1, false, "5".to_string(), 0, 1)
            ]
        );

        assert_eq!(tree.remove(1), Some("5".to_string()));
        assert_eq!(tree.len(), 1);
        assert_eq!(tree.height(), 1);
        assert_eq!(to_vec(&tree), vec![(0, false, "2".to_string(), 0, 1)]);

        assert_eq!(tree.remove(0), Some("2".to_string()));
        assert_eq!(tree.len(), 0);
        assert_eq!(tree.height(), 0);
        assert_eq!(to_vec(&tree), vec![]);
    }

#[test]
    fn test_remove_children_collapsed() {

        let mut tree = TreeList::<String>::new();
        tree.insert_item(Placement::LastChild, 0, "1".to_string());
        tree.insert_item(Placement::LastChild, 0, "2".to_string());
        tree.insert_item(Placement::LastChild, 1, "3".to_string());
        tree.insert_item(Placement::LastChild, 2, "4".to_string());
        tree.insert_item(Placement::LastChild, 3, "5".to_string());

        tree.set_collapsed(2, true);

        assert_eq!(
            to_vec(&tree),
            vec![
                (0, false, "1".to_string(), 4, 3),
                (1, false, "2".to_string(), 3, 2),
                (2, true, "3".to_string(), 2, 1)
            ]
        );

        assert_eq!(tree.len(), 5);
        assert_eq!(tree.height(), 3);

        assert_eq!(tree.remove(2), Some(("3".to_string())));

        assert_eq!(tree.len(), 4);
        assert_eq!(tree.height(), 4);
    }

#[test]
    fn test_remove_sibling() {

        let mut tree = TreeList::<String>::new();
        tree.insert_item(Placement::LastChild, 0, "Parent".to_string());
        tree.insert_item(Placement::LastChild, 0, "1".to_string());
        tree.insert_item(Placement::After, 1, "2".to_string());
        tree.insert_item(Placement::After, 2, "3".to_string());
        tree.insert_item(Placement::After, 3, "4".to_string());

        assert_eq!(
            to_vec(&tree),
            vec![
                (0, false, "Parent".to_string(), 4, 5),
                (1, false, "1".to_string(), 0, 1),
                (1, false, "2".to_string(), 0, 1),
                (1, false, "3".to_string(), 0, 1),
                (1, false, "4".to_string(), 0, 1)
            ]
        );

        assert_eq!(tree.len(), 5);
        assert_eq!(tree.height(), 5);

        assert_eq!(tree.remove(2), Some("2".to_string()));
        assert_eq!(tree.len(), 4);
        assert_eq!(tree.height(), 4);
        assert_eq!(
            to_vec(&tree),
            vec![
                (0, false, "Parent".to_string(), 3, 4),
                (1, false, "1".to_string(), 0, 1),
                (1, false, "3".to_string(), 0, 1),
                (1, false, "4".to_string(), 0, 1)
            ]
        );

        assert_eq!(tree.remove(2), Some("3".to_string()));
        assert_eq!(tree.len(), 3);
        assert_eq!(tree.height(), 3);
        assert_eq!(
            to_vec(&tree),
            vec![
                (0, false, "Parent".to_string(), 2, 3),
                (1, false, "1".to_string(), 0, 1),
                (1, false, "4".to_string(), 0, 1)
            ]
        );

        assert_eq!(tree.remove(1), Some("1".to_string()));
        assert_eq!(tree.len(), 2);
        assert_eq!(tree.height(), 2);
        assert_eq!(
            to_vec(&tree),
            vec![
                (0, false, "Parent".to_string(), 1, 2),
                (1, false, "4".to_string(), 0, 1)
            ]
        );

        assert_eq!(tree.remove(1), Some("4".to_string()));
        assert_eq!(tree.len(), 1);
        assert_eq!(tree.height(), 1);
        assert_eq!(to_vec(&tree), vec![(0, false, "Parent".to_string(), 0, 1)]);
    }

#[test]
fn test_custom_tree_item() {
    #[derive(Debug, Eq, PartialEq)]
    struct TreeItem {
        value: usize,
    }

    impl fmt::Display for TreeItem {
        fn fmt(&self, f: &mut fmt::Formatter) -> fmt::Result {
            f.write_str(&format!("TreeItem<{}>", self.value))
        }
    }

    let mut tree = TreeList::<TreeItem>::new();
    tree.insert_item(Placement::After, 0, TreeItem { value: 42 });

    assert_eq!(tree.remove(0).unwrap(), TreeItem { value: 42 });
}

#[test]
fn test_extract_root_promotes_child() {
    let mut tree = TreeList::<String>::new();
    tree.insert_item(Placement::LastChild, 0, "root".to_string());
    tree.insert_item(Placement::LastChild, 0, "child".to_string());
    assert_eq!(tree.len(), 2);
    assert_eq!(tree.height(), 2);

    assert_eq!(tree.remove(0), Some("root".to_string()));

    assert_eq!(tree.len(), 1);
    assert_eq!(tree.height(), 1);
    assert_eq!(to_vec(&tree), vec![(0, false, "child".to_string(), 0, 1)]);
}

#[test]
fn test_set_value_swaps_only_the_payload() {
    let mut tree = TreeList::<String>::new();
    tree.insert_item(Placement::LastChild, 0, "a".to_string());
    tree.insert_item(Placement::LastChild, 0, "b".to_string());

    assert_eq!(tree.set_value(1, "c".to_string()), Ok("b".to_string()));
    assert_eq!(tree.get(1), Some(&"c".to_string()));
    assert_eq!(tree.set_value(5, "d".to_string()), Err("d".to_string()));
    assert_eq!(tree.len(), 2);
    assert_eq!(tree.height(), 2);
}
