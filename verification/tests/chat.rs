use course_projects::chat::{history_file_name, system_prompt, visible_history, Cache};

fn s(x: &str) -> String {
    x.to_string()
}

#[test]
fn cache_finds_what_was_stored() {
    let mut c: Cache<u32> = Cache::new(3);
    assert_eq!(c.len(), 0);
    assert!(c.get_chat(&s("ann")).is_none());
    c.insert_chat(s("ann"), 1);
    c.insert_chat(s("bob"), 2);
    assert_eq!(c.len(), 2);
    assert!(c.contains(&s("ann")));
    assert_eq!(c.get_chat(&s("ann")).copied(), Some(1));
    assert_eq!(c.get_chat(&s("bob")).copied(), Some(2));
    assert!(c.get_chat(&s("cid")).is_none());
}

#[test]
fn cache_forgets_the_least_recently_used() {
    let mut c: Cache<u32> = Cache::new(3);
    c.insert_chat(s("a"), 1);
    c.insert_chat(s("b"), 2);
    c.insert_chat(s("c"), 3);
    // using "a" makes "b" the least recently used
    assert!(c.get_chat(&s("a")).is_some());
    c.insert_chat(s("d"), 4);
    assert_eq!(c.len(), 3);
    assert!(!c.contains(&s("b")));
    assert!(c.contains(&s("a")));
    assert!(c.contains(&s("c")));
    assert!(c.contains(&s("d")));
    c.insert_chat(s("e"), 5);
    assert!(!c.contains(&s("c")));
    assert_eq!(c.len(), 3);
}

#[test]
fn cache_replaces_a_stored_value() {
    let mut c: Cache<u32> = Cache::new(2);
    c.insert_chat(s("a"), 1);
    c.insert_chat(s("b"), 2);
    c.insert_chat(s("a"), 10);
    assert_eq!(c.len(), 2);
    // "a" was used last, so "b" leaves first
    c.insert_chat(s("c"), 3);
    assert!(!c.contains(&s("b")));
    assert_eq!(c.get_chat(&s("a")).copied(), Some(10));
}

#[test]
fn cache_values_can_be_changed_in_place() {
    let mut c: Cache<Vec<String>> = Cache::new(1);
    c.insert_chat(s("ann"), vec![s("hi")]);
    if let Some(chat) = c.get_chat(&s("ann")) {
        chat.push(s("there"));
    }
    assert_eq!(c.get_chat(&s("ann")).cloned(), Some(vec![s("hi"), s("there")]));
    c.insert_chat(s("bob"), vec![]);
    assert_eq!(c.len(), 1);
    assert!(!c.contains(&s("ann")));
}

#[test]
fn file_names_and_prompt() {
    assert_eq!(history_file_name(&s("ann")), "ann.txt");
    assert_eq!(history_file_name(&s("")), ".txt");
    assert_eq!(system_prompt(), "The assistant will act like a pirate");
}

#[test]
fn visible_history_drops_the_prompt() {
    let h = vec![s("The assistant will act like a pirate"), s("hello"), s("Arr!")];
    assert_eq!(visible_history(h), vec![s("hello"), s("Arr!")]);
    assert_eq!(visible_history(vec![s("only")]), Vec::<String>::new());
    assert_eq!(visible_history(vec![]), Vec::<String>::new());
}
