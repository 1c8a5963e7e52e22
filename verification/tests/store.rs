use rustic::util::Properties;
use rustic::sql::DbType;

fn s(x: &str) -> String {
    x.to_string()
}

fn sorted(p: &Properties) -> Vec<(String, String)> {
    let mut v: Vec<(String, String)> = Vec::new();
    for (k, v0) in p.iter() {
        v.push((k.clone(), v0.clone()));
    }
    v.sort();
    v
}

#[test]
fn new_is_empty() {
    let p = Properties::new();
    assert_eq!(p.len(), 0);
    assert!(p.is_empty());
    assert!(p.keys().is_empty());
    assert!(p.values().is_empty());
    assert!(p.iter().is_empty());
}

#[test]
fn insert_returns_previous_value() {
    let mut p = Properties::new();
    assert_eq!(p.insert(s("a"), s("1")), None);
    assert_eq!(p.insert(s("b"), s("2")), None);
    assert_eq!(p.insert(s("a"), s("3")), Some(s("1")));
    assert_eq!(p.len(), 2);
    assert!(!p.is_empty());
    assert_eq!(p.get(&s("a")), Some(&s("3")));
    assert_eq!(p.get(&s("b")), Some(&s("2")));
    assert_eq!(p.get(&s("c")), None);
}

#[test]
fn contains_key_follows_insert_and_remove() {
    let mut p = Properties::new();
    assert!(!p.contains_key(&s("a")));
    p.insert(s("a"), s("1"));
    assert!(p.contains_key(&s("a")));
    assert!(!p.contains_key(&s("A")));
    p.remove(&s("a"));
    assert!(!p.contains_key(&s("a")));
}

#[test]
fn remove_returns_value() {
    let mut p = Properties::new();
    p.insert(s("a"), s("1"));
    p.insert(s("b"), s("2"));
    p.insert(s("c"), s("3"));
    assert_eq!(p.remove(&s("b")), Some(s("2")));
    assert_eq!(p.remove(&s("b")), None);
    assert_eq!(p.remove(&s("zz")), None);
    assert_eq!(p.len(), 2);
    assert_eq!(sorted(&p), vec![(s("a"), s("1")), (s("c"), s("3"))]);
}

#[test]
fn get_mut_changes_the_value_in_place() {
    let mut p = Properties::new();
    p.insert(s("a"), s("1"));
    p.insert(s("b"), s("2"));
    match p.get_mut(&s("a")) {
        Some(v) => v.push_str("0"),
        None => panic!("a is there"),
    }
    assert!(p.get_mut(&s("c")).is_none());
    assert_eq!(sorted(&p), vec![(s("a"), s("10")), (s("b"), s("2"))]);
    assert_eq!(p.len(), 2);
}

#[test]
fn insert_keeps_first_place_of_a_key() {
    let mut p = Properties::new();
    p.insert(s("a"), s("1"));
    p.insert(s("b"), s("2"));
    p.insert(s("a"), s("3"));
    p.insert(s("c"), s("4"));
    assert_eq!(p.keys(), &vec![s("a"), s("b"), s("c")]);
    assert_eq!(p.values(), &vec![s("3"), s("2"), s("4")]);
    p.remove(&s("b"));
    assert_eq!(p.keys(), &vec![s("a"), s("c")]);
    assert_eq!(p.values(), &vec![s("3"), s("4")]);
}

#[test]
fn clear_removes_everything() {
    let mut p = Properties::new();
    p.insert(s("a"), s("1"));
    p.insert(s("b"), s("2"));
    p.clear();
    assert!(p.is_empty());
    assert_eq!(p.get(&s("a")), None);
}

#[test]
fn keys_values_and_iter_agree() {
    let mut p = Properties::new();
    p.insert(s("a"), s("1"));
    p.insert(s("b"), s("2"));
    p.insert(s("a"), s("3"));
    let keys = p.keys();
    let values = p.values();
    let all = p.iter();
    assert_eq!(keys.len(), 2);
    assert_eq!(values.len(), 2);
    assert_eq!(all.len(), 2);
    for i in 0..2 {
        assert_eq!(&keys[i], all[i].0);
        assert_eq!(&values[i], all[i].1);
        assert_eq!(p.get(&keys[i]), Some(&values[i]));
    }
    assert_eq!(sorted(&p), vec![(s("a"), s("3")), (s("b"), s("2"))]);
}

#[test]
fn load_key_equals_value() {
    let mut p = Properties::new();
    p.load("key = value");
    assert_eq!(sorted(&p), vec![(s("key"), s("value"))]);
}

#[test]
fn load_comment_gives_no_entry() {
    let mut p = Properties::new();
    p.load("# comment");
    assert!(p.is_empty());
    p.load("! comment");
    assert!(p.is_empty());
    p.load("# one\n   ! two\n");
    assert!(p.is_empty());
}

#[test]
fn load_continued_line() {
    let mut p = Properties::new();
    p.load("a=1\\\n23");
    assert_eq!(sorted(&p), vec![(s("a"), s("123"))]);
}

#[test]
fn load_continued_lines_from_vec() {
    let mut p = Properties::new();
    p.load_lines(&vec![s("a=1\\"), s("23")]);
    assert_eq!(sorted(&p), vec![(s("a"), s("123"))]);
}

#[test]
fn load_target_cities() {
    let mut p = Properties::new();
    p.load("targetCities=\\\n        Detroit, \\\n        Chicago, \\\n        Los Angeles");
    assert_eq!(
        sorted(&p),
        vec![(s("targetCities"), s("Detroit, Chicago, Los Angeles"))]
    );
}

#[test]
fn load_empty_input() {
    let mut p = Properties::new();
    p.load("");
    assert!(p.is_empty());
    p.load_lines(&Vec::new());
    assert!(p.is_empty());
}

#[test]
fn load_last_value_wins() {
    let mut p = Properties::new();
    p.load("a=1\nb=2\na=3\n");
    assert_eq!(sorted(&p), vec![(s("a"), s("3")), (s("b"), s("2"))]);
}

#[test]
fn load_keeps_earlier_properties() {
    let mut p = Properties::new();
    p.insert(s("x"), s("old"));
    p.insert(s("y"), s("kept"));
    p.load("x=new\n");
    assert_eq!(sorted(&p), vec![(s("x"), s("new")), (s("y"), s("kept"))]);
}

#[test]
fn load_keeps_the_first_place_of_a_key() {
    let mut p = Properties::new();
    p.load("b=1\na=2\nb=3\nc=4\n");
    assert_eq!(p.keys(), &vec![s("b"), s("a"), s("c")]);
    assert_eq!(p.values(), &vec![s("3"), s("2"), s("4")]);
    assert_eq!(p.store(), "b=3\na=2\nc=4\n");
}

#[test]
fn store_then_load_keeps_the_order() {
    let mut p = Properties::new();
    p.insert(s("z"), s("1"));
    p.insert(s("a b"), s("2"));
    p.insert(s("#m"), s(" 3"));
    let mut q = Properties::new();
    q.load(&p.store());
    assert_eq!(q.keys(), p.keys());
    assert_eq!(q.values(), p.values());
}

#[test]
fn load_accepts_any_line() {
    let mut p = Properties::new();
    p.load("justakey\n=onlyvalue\n:\n");
    assert_eq!(sorted(&p), vec![(s(""), s("")), (s("justakey"), s(""))]);
}

#[test]
fn load_drops_continuation_at_end_of_input() {
    let mut p = Properties::new();
    p.load("a=1\nb=2\\\n");
    assert_eq!(sorted(&p), vec![(s("a"), s("1"))]);
}

#[test]
fn load_crlf_and_blank_lines() {
    let mut p = Properties::new();
    p.load("a=1\r\n\r\n   \r\nb : 2\r\n");
    assert_eq!(sorted(&p), vec![(s("a"), s("1")), (s("b"), s("2"))]);
}

#[test]
fn load_multibyte_text() {
    let mut p = Properties::new();
    p.load("clé = valeur é€😀\nnom\\ complet=Zoë\n");
    assert_eq!(
        sorted(&p),
        vec![(s("clé"), s("valeur é€😀")), (s("nom complet"), s("Zoë"))]
    );
}

#[test]
fn store_one_line_per_property() {
    let mut p = Properties::new();
    p.insert(s("a"), s("1"));
    p.insert(s("b c"), s(" x y"));
    let mut lines = p.store_lines();
    lines.sort();
    assert_eq!(lines, vec![s("a=1\n"), s("b\\ c=\\ x y\n")]);
    let text = p.store();
    assert!(text == "a=1\nb\\ c=\\ x y\n" || text == "b\\ c=\\ x y\na=1\n");
}

#[test]
fn store_empty() {
    let p = Properties::new();
    assert_eq!(p.store(), "");
    assert!(p.store_lines().is_empty());
}

#[test]
fn store_tab_value_and_load_back() {
    let mut p = Properties::new();
    p.insert(s("k"), s("\tindented"));
    let text = p.store();
    assert_eq!(text, "k=\\tindented\n");
    let mut q = Properties::new();
    q.load(&text);
    assert_eq!(q.get(&s("k")), Some(&s("\tindented")));
}

#[test]
fn store_inner_tab_and_load_back() {
    let mut p = Properties::new();
    p.insert(s("k"), s("a\tb"));
    let text = p.store();
    let mut q = Properties::new();
    q.load(&text);
    assert_eq!(q.get(&s("k")), Some(&s("a\tb")));
}

#[test]
fn store_key_with_leading_mark() {
    let mut p = Properties::new();
    p.insert(s("#note"), s("x"));
    let text = p.store();
    assert_eq!(text, "\\#note=x\n");
    let mut q = Properties::new();
    q.load(&text);
    assert_eq!(sorted(&q), vec![(s("#note"), s("x"))]);
}

#[test]
fn store_then_load_gives_the_same_properties() {
    let mut p = Properties::new();
    p.insert(s("plain"), s("value"));
    p.insert(s("with space"), s("  leading and trailing  "));
    p.insert(s("a=b:c"), s("x=y:z"));
    p.insert(s("!bang"), s("#hash"));
    p.insert(s("back\\slash"), s("ends with \\"));
    p.insert(s(""), s(""));
    p.insert(s("multi\nline"), s("one\r\ntwo"));
    p.insert(s("é€😀"), s("\u{a0}nbsp"));
    p.insert(s("~printable{}[]"), s("!\"#$%&'()*+,-./:;<=>?@[\\]^_`{|}~"));
    let mut q = Properties::new();
    q.load(&p.store());
    assert_eq!(sorted(&q), sorted(&p));
    let mut r = Properties::new();
    r.load_lines(&p.store_lines());
    assert_eq!(sorted(&r), sorted(&p));
}

#[test]
fn db_type_names_sqlite() {
    let t = DbType::SQLite3;
    assert!(matches!(t, DbType::SQLite3));
}
