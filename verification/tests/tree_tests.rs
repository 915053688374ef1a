use minecraft_mod_organizer::domain::{AppError, Category, SqliteRepository};
use minecraft_mod_organizer::hierarchy::{
    category_move_index, find_category, is_descendant, new_category, normalized_sibling_order,
    siblings_in,
};

fn cat(id: &str, parent: Option<&str>, sort_index: i64) -> Category {
    Category {
        id: id.to_string(),
        name: id.to_uppercase(),
        parent_id: parent.map(|p| p.to_string()),
        sort_index,
        color: None,
        icon_hex: None,
    }
}

fn tree() -> Vec<Category> {
    vec![
        cat("root", None, 0),
        cat("a", Some("root"), 0),
        cat("b", Some("root"), 1),
        cat("c", Some("root"), 2),
        cat("a1", Some("a"), 0),
        cat("other", None, 1),
    ]
}

fn strings(v: &[&str]) -> Vec<String> {
    v.iter().map(|s| s.to_string()).collect()
}

#[test]
fn descendant_follows_parent_links() {
    let t = tree();
    assert!(is_descendant("a1", "root", &t));
    assert!(is_descendant("a1", "a", &t));
    assert!(is_descendant("a", "a", &t));
    assert!(!is_descendant("root", "a1", &t));
    assert!(!is_descendant("other", "root", &t));
    assert!(!is_descendant("missing", "root", &t));
}

#[test]
fn descendant_stops_on_a_parent_cycle() {
    let looped = vec![cat("x", Some("y"), 0), cat("y", Some("x"), 0), cat("z", None, 0)];
    assert!(!is_descendant("x", "z", &looped));
    assert!(is_descendant("x", "y", &looped));
}

#[test]
fn move_refuses_unknown_category() {
    let r = category_move_index(&tree(), "nope", &None, 0);
    assert!(matches!(r, Err(AppError::MissingCategory(ref s)) if s == "nope"));
}

#[test]
fn move_refuses_itself_or_a_descendant_as_parent() {
    let t = tree();
    assert!(matches!(category_move_index(&t, "a", &Some("a".to_string()), 0), Err(AppError::CategoryCycle)));
    assert!(matches!(category_move_index(&t, "root", &Some("a1".to_string()), 0), Err(AppError::CategoryCycle)));
    assert!(matches!(category_move_index(&t, "a1", &Some("other".to_string()), 0), Ok(0)));
}

#[test]
fn move_down_among_siblings_counts_itself_out() {
    let t = tree();
    let root = Some("root".to_string());
    assert!(matches!(category_move_index(&t, "a", &root, 3), Ok(2)));
    assert!(matches!(category_move_index(&t, "a", &root, 0), Ok(0)));
    assert!(matches!(category_move_index(&t, "c", &root, 0), Ok(0)));
    assert!(matches!(category_move_index(&t, "c", &root, 2), Ok(2)));
    assert!(matches!(category_move_index(&t, "other", &root, 1), Ok(1)));
}

#[test]
fn move_position_uses_sort_index_order() {
    let t = vec![cat("p", None, 0), cat("x", Some("p"), 5), cat("y", Some("p"), 1), cat("z", Some("p"), 3)];
    let p = Some("p".to_string());
    // In sort order y, z, x: x is third, so moving it to position 1 stays 1 and to 3 becomes 2.
    assert!(matches!(category_move_index(&t, "x", &p, 1), Ok(1)));
    assert!(matches!(category_move_index(&t, "x", &p, 3), Ok(2)));
    assert!(matches!(category_move_index(&t, "y", &p, 1), Ok(0)));
}

#[test]
fn siblings_and_lookup() {
    let t = tree();
    let s = siblings_in(&t, &Some("root".to_string()));
    assert_eq!(s.iter().map(|c| c.id.as_str()).collect::<Vec<_>>(), vec!["a", "b", "c"]);
    let r = siblings_in(&t, &None);
    assert_eq!(r.iter().map(|c| c.id.as_str()).collect::<Vec<_>>(), vec!["root", "other"]);
    assert_eq!(find_category(&t, "c"), Some(3));
    assert_eq!(find_category(&t, "zz"), None);
}

#[test]
fn sibling_order_moves_one_and_keeps_the_rest() {
    let ids = strings(&["a", "b", "c", "d"]);
    assert_eq!(normalized_sibling_order(ids.clone(), Some("c"), Some(0)), strings(&["c", "a", "b", "d"]));
    assert_eq!(normalized_sibling_order(ids.clone(), Some("a"), Some(2)), strings(&["b", "c", "a", "d"]));
    assert_eq!(normalized_sibling_order(ids.clone(), Some("b"), Some(99)), strings(&["a", "c", "d", "b"]));
    assert_eq!(normalized_sibling_order(ids.clone(), Some("b"), None), strings(&["a", "c", "d", "b"]));
    assert_eq!(normalized_sibling_order(ids.clone(), Some("new"), Some(1)), strings(&["a", "new", "b", "c", "d"]));
    assert_eq!(normalized_sibling_order(ids.clone(), None, Some(1)), ids);
}

#[test]
fn new_category_gets_a_fresh_id() {
    let c1 = new_category("Tech".to_string(), Some("root".to_string()), 4);
    let c2 = new_category("Tech".to_string(), None, 0);
    assert_eq!(c1.id.chars().count(), 36);
    assert_ne!(c1.id, c2.id);
    assert_eq!(c1.name, "Tech");
    assert_eq!(c1.parent_id, Some("root".to_string()));
    assert_eq!(c1.sort_index, 4);
    assert_eq!(c1.color, None);
    assert_eq!(c1.icon_hex, None);
}

#[test]
fn repository_keeps_its_path() {
    let repo = SqliteRepository::new("/data/organizer.sqlite3".to_string());
    assert_eq!(repo.db_path(), "/data/organizer.sqlite3");
}

#[test]
fn new_category_id_is_a_version_4_uuid() {
    let id: Vec<char> = new_category("Magic".to_string(), None, 0).id.chars().collect();
    assert_eq!(id.len(), 36);
    for (i, c) in id.iter().enumerate() {
        if i == 8 || i == 13 || i == 18 || i == 23 {
            assert_eq!(*c, '-');
        } else {
            assert!(c.is_ascii_digit() || ('a'..='f').contains(c));
        }
    }
    assert_eq!(id[14], '4');
    assert!(matches!(id[19], '8' | '9' | 'a' | 'b'));
}
