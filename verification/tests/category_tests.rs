use std::num::NonZeroUsize;

use card_ledger::category::{Category, CategoryKind, TitleColor};
use card_ledger::category_manager::CategoryManager;

fn cat(id: u32, title: &str, parent: Option<u32>) -> Category {
    Category::new(id, title.to_string(), format!("about {}", title), parent)
}

fn parent_handle(cm: &CategoryManager, h: usize) -> Option<usize> {
    let id = cm.arena.get_node_id_at(NonZeroUsize::new(h).unwrap()).unwrap();
    id.parent(&cm.arena).map(usize::from)
}

fn child_handles(cm: &CategoryManager, h: usize) -> Vec<usize> {
    let id = cm.arena.get_node_id_at(NonZeroUsize::new(h).unwrap()).unwrap();
    id.children(&cm.arena).map(usize::from).collect()
}

#[test]
fn category_new_keeps_fields() {
    let c = Category::new(7, "Ink".to_string(), "cartridges".to_string(), Some(2));
    assert_eq!(c.id, 7);
    assert_eq!(c.title, "Ink");
    assert_eq!(c.description, "cartridges");
    assert_eq!(c.parent, Some(2));
    let _kinds = [CategoryKind::All, CategoryKind::Root, CategoryKind::Child(3)];
}

#[test]
fn title_color_by_parent() {
    assert_eq!(cat(1, "Root", None).title_color(), TitleColor::Green);
    assert_eq!(cat(2, "Child", Some(1)).title_color(), TitleColor::Yellow);
}

#[test]
fn parent_label_is_decimal_or_dash() {
    assert_eq!(cat(1, "Root", None).parent_label(), "-");
    assert_eq!(cat(2, "Child", Some(1)).parent_label(), "1");
    assert_eq!(cat(3, "Deep", Some(4_294_967_295)).parent_label(), "4294967295");
    assert_eq!(cat(4, "Zero", Some(0)).parent_label(), "0");
}

#[test]
fn load_builds_nodes_in_order_and_links_parents() {
    let cm = CategoryManager::load(vec![
        cat(4, "Cyan", Some(2)),
        cat(1, "Expenses", None),
        cat(2, "Ink", Some(1)),
        cat(3, "Paper", Some(1)),
    ]);
    assert_eq!(cm.arena.len(), 4);
    assert_eq!(cm.node_ids.get(&4), Some(&1));
    assert_eq!(cm.node_ids.get(&1), Some(&2));
    assert_eq!(cm.node_ids.get(&2), Some(&3));
    assert_eq!(cm.node_ids.get(&3), Some(&4));
    assert_eq!(parent_handle(&cm, 1), Some(3));
    assert_eq!(parent_handle(&cm, 2), None);
    assert_eq!(parent_handle(&cm, 3), Some(2));
    assert_eq!(parent_handle(&cm, 4), Some(2));
}

#[test]
fn load_keeps_first_node_of_an_id_and_ignores_unknown_parents() {
    let cm = CategoryManager::load(vec![
        cat(1, "A", None),
        cat(2, "B", Some(9)),
        cat(1, "A again", None),
        cat(3, "C", Some(1)),
    ]);
    assert_eq!(cm.node_ids.len(), 3);
    assert_eq!(cm.node_ids.get(&1), Some(&1));
    assert_eq!(parent_handle(&cm, 2), None);
    assert_eq!(parent_handle(&cm, 3), None);
    assert_eq!(parent_handle(&cm, 4), Some(1));
}

#[test]
fn load_later_pair_of_an_id_wins() {
    // The same id twice with different parents: the first node of the id
    // is moved under each parent in turn and stays under the last one.
    let cm = CategoryManager::load(vec![
        cat(1, "A", None),
        cat(2, "B", None),
        cat(3, "C", Some(1)),
        cat(3, "C twin", Some(2)),
    ]);
    assert_eq!(parent_handle(&cm, 3), Some(2));
    assert_eq!(parent_handle(&cm, 4), None);
}

#[test]
fn leaf_entries_are_leaves_sorted_by_path() {
    let cm = CategoryManager::load(vec![
        cat(4, "Cyan", Some(2)),
        cat(1, "Expenses", None),
        cat(3, "Paper", Some(1)),
        cat(2, "Ink", Some(1)),
        cat(5, "Bills", None),
    ]);
    let entries = cm.leaf_entries();
    assert_eq!(
        entries,
        vec![
            ("Bills".to_string(), "Bills".to_string()),
            ("Expenses -> Ink -> Cyan".to_string(), "Cyan".to_string()),
            ("Expenses -> Paper".to_string(), "Paper".to_string()),
        ]
    );
}

#[test]
fn leaf_entries_skip_nodes_not_in_the_index() {
    let cm = CategoryManager::load(vec![
        cat(1, "Zeta", None),
        cat(1, "Alpha", None),
    ]);
    assert_eq!(cm.leaf_entries(), vec![("Zeta".to_string(), "Zeta".to_string())]);
}

#[test]
fn leaf_entries_of_nothing() {
    let cm = CategoryManager::load(vec![]);
    assert!(cm.leaf_entries().is_empty());
}

#[test]
fn leaf_entries_order_by_code_point() {
    let cm = CategoryManager::load(vec![
        cat(1, "b", None),
        cat(2, "B", None),
        cat(3, "ب", None),
        cat(4, "a", None),
    ]);
    let paths: Vec<String> = cm.leaf_entries().into_iter().map(|e| e.0).collect();
    assert_eq!(paths, vec!["B", "a", "b", "ب"]);
}

#[test]
fn can_load_refuses_cycles_only() {
    assert!(CategoryManager::can_load(&vec![cat(1, "A", None), cat(2, "B", Some(1))]));
    assert!(CategoryManager::can_load(&vec![cat(2, "B", Some(1))]));
    assert!(CategoryManager::can_load(&vec![]));
    assert!(!CategoryManager::can_load(&vec![cat(1, "A", Some(1))]));
    assert!(!CategoryManager::can_load(&vec![cat(1, "A", Some(2)), cat(2, "B", Some(1))]));
    assert!(!CategoryManager::can_load(&vec![
        cat(1, "A", Some(3)),
        cat(2, "B", Some(1)),
        cat(3, "C", Some(2)),
    ]));
    // A later pair moves a node away first, so the cycle never closes.
    assert!(CategoryManager::can_load(&vec![
        cat(1, "A", Some(2)),
        cat(1, "A again", Some(3)),
        cat(2, "B", Some(1)),
        cat(3, "C", None),
    ]));
}


#[test]
fn load_keeps_children_in_list_order() {
    let cm = CategoryManager::load(vec![
        cat(5, "Magenta", Some(2)),
        cat(1, "Expenses", None),
        cat(2, "Ink", Some(1)),
        cat(3, "Paper", Some(1)),
        cat(4, "Cyan", Some(2)),
        cat(6, "Rent", Some(1)),
    ]);
    assert_eq!(child_handles(&cm, 2), vec![3, 4, 6]);
    assert_eq!(child_handles(&cm, 3), vec![1, 5]);
    assert_eq!(child_handles(&cm, 1), Vec::<usize>::new());
    assert_eq!(child_handles(&cm, 4), Vec::<usize>::new());
}

#[test]
fn load_moves_a_relinked_child_to_the_end() {
    let cm = CategoryManager::load(vec![
        cat(1, "Root", None),
        cat(2, "A", Some(1)),
        cat(3, "B", Some(1)),
        cat(2, "A again", Some(1)),
    ]);
    assert_eq!(child_handles(&cm, 1), vec![3, 2]);
}
