//! Task records, list ordering, and the end-to-end search.

use tsk::eval::{evaluate, filter};
use tsk::parser::parse;
use tsk::task::{List, Task};

#[test]
fn task_test_new_task() {
    let task = Task::new("Some title");
    assert!(task.title == "Some title".to_string());
    assert!(task.completed_date.is_none());
    assert!(!task.completed());
}

#[test]
fn task_test_complete_task() {
    let mut task = Task::new("Test");
    task.complete();
    assert!(task.completed_date.is_some());
    assert!(task.completed());
}

#[test]
fn task_test_simple_task_ordering() {
    let list = List::new(vec![
        Task::new("test1").with_priority(1),
        Task::new("test3").with_priority(3),
        Task::new("test2").with_priority(2),
        Task::new("test0"),
    ]);

    let mut priority = 3;
    for task in &list.tasks {
        println!("Task: {}", task.title);
        assert_eq!(task.priority, priority);
        priority = priority - 1;
    }
}

#[test]
fn task_test_multi_day_task_ordering() {
    let mut yesterday = Task::new("test2").with_priority(2);
    yesterday.created_date = yesterday.created_date - 86400;

    let tasks = vec![
        Task::new("test1").with_priority(1),
        yesterday,
        Task::new("test3").with_priority(3),
        Task::new("test0").with_priority(2),
    ];

    let list = List::new(tasks.clone());

    let mut iter = list.tasks.into_iter();
    assert_eq!(iter.next().unwrap(), tasks[2]);
    assert_eq!(iter.next().unwrap(), tasks[1]);
    assert_eq!(iter.next().unwrap(), tasks[3]);
    assert_eq!(iter.next().unwrap(), tasks[0]);
}

#[test]
fn test_unique_ids() {
    let t1 = Task::new("Test task");
    let t2 = Task::new("Test task");
    assert_ne!(t1.id, t2.id)
}

#[test]
fn test_id_is_eight_characters() {
    let t = Task::new("Test task");
    assert_eq!(t.id.chars().count(), 8);
}

#[test]
fn test_completed() {
    let mut task2 = Task::new("test2");
    task2.complete();

    let list = List::new(vec![Task::new("test1"), task2.clone(), Task::new("test3")]);

    let completed = list.completed(true);

    assert_eq!(completed.len(), 1);
    assert_eq!(completed[0], task2);
    assert_eq!(list.completed(false).len(), 0);
}

#[test]
fn test_with_context() {
    let in_context = Task::new("test2").with_context("testing");
    let list = List::new(vec![
        Task::new("test1"),
        in_context.clone(),
        Task::new("test3"),
    ]);

    let testing = list.with_context("testing");

    assert_eq!(testing.len(), 1);
    assert_eq!(testing[0], in_context);
}

#[test]
fn test_current() {
    let mut task1 = Task::new("test1");
    task1.complete();

    let current = Task::new("test3").with_priority(2);
    let mut list = List::new(vec![task1, Task::new("test2"), current.clone()]);

    let ind = list.current().unwrap();
    assert_eq!(list.tasks[ind], current);
}

#[test]
fn test_find_by_id() {
    let wanted = Task::new("test3");
    let id = wanted.id.clone();
    let list = List::new(vec![Task::new("test1"), Task::new("test2"), wanted.clone()]);
    let ind = list.find_by_id(&id).unwrap();
    assert_eq!(wanted, list.tasks[ind]);
}

#[test]
fn test_find_by_title() {
    let list = List::new(vec![Task::new("alpha"), Task::new("beta")]);
    let ind = list.find_by_title("beta").unwrap();
    assert_eq!(list.tasks[ind].title, "beta");
    assert!(list.find_by_title("gamma").is_none());
}

#[test]
fn test_complete_by_id() {
    let target = Task::new("finish me");
    let id = target.id.clone();
    let mut list = List::new(vec![target, Task::new("other")]);
    assert!(list.complete(&id).is_ok());
    let ind = list.find_by_id(&id).unwrap();
    assert!(list.tasks[ind].completed());
    assert!(list.complete(&id).is_err());
    assert!(list.complete("no-such-id").is_err());
}

#[test]
fn test_update_and_add_note() {
    let original = Task::new("before");
    let id = original.id.clone();
    let mut list = List::new(vec![original]);

    let mut replacement = Task::new("after").with_priority(4);
    replacement.id = id.clone();
    assert!(list.update(replacement).is_ok());
    let ind = list.find_by_id(&id).unwrap();
    assert_eq!(list.tasks[ind].title, "after");
    assert_eq!(list.tasks[ind].priority, 4);

    let mut noted = Task::new("notes carrier");
    noted.add_note("remember this");
    assert_eq!(noted.notes.len(), 1);
    assert_eq!(noted.notes[0].body, "remember this");
}

#[test]
fn test_end_to_end_search() {
    let tasks = vec![
        Task::new("buy milk").with_priority(1),
        Task::new("walk dog").with_priority(5),
    ];

    let ast = parse("priority > 2").unwrap();
    let found = filter(&ast, &tasks);
    assert_eq!(found.len(), 1);
    assert_eq!(found[0].title, "walk dog");

    let list = List::new(tasks);
    let found_again = list.search(&ast);
    assert_eq!(found_again.len(), 1);
    assert_eq!(found_again[0].title, "walk dog");
}

#[test]
fn test_evaluate_free_text_and_fields() {
    let task = Task::new("Buy MILK and cookies").with_context("home").with_body("whole milk");

    assert!(evaluate(&parse("milk").unwrap(), &task));
    assert!(evaluate(&parse("\"milk and cookies\"").unwrap(), &task));
    assert!(!evaluate(&parse("sugar").unwrap(), &task));

    assert!(evaluate(&parse("context = home").unwrap(), &task));
    assert!(!evaluate(&parse("context != home").unwrap(), &task));
    assert!(evaluate(&parse("title ^ \"buy milk\"").unwrap(), &task));
    assert!(evaluate(&parse("body ^^ skim").unwrap(), &task));

    let bare = Task::new("nothing here");
    assert!(evaluate(&parse("body != anything").unwrap(), &bare));
    assert!(!evaluate(&parse("body = anything").unwrap(), &bare));
    assert!(evaluate(&parse("completed_date != 2020-01-01").unwrap(), &bare));
}

#[test]
fn test_evaluate_priority_fraction() {
    let two = Task::new("two").with_priority(2);
    assert!(evaluate(&parse("priority < 2.5").unwrap(), &two));
    assert!(evaluate(&parse("priority >= 2.0").unwrap(), &two));
    assert!(!evaluate(&parse("priority > 2").unwrap(), &two));
    assert!(evaluate(&parse("priority = 2.00").unwrap(), &two));
}

#[test]
fn test_evaluate_notes() {
    let mut task = Task::new("with notes");
    task.add_note("call the plumber");
    task.add_note("then the electrician");

    assert!(evaluate(&parse("notes = \"call the plumber\"").unwrap(), &task));
    assert!(evaluate(&parse("notes ^ PLUMBER").unwrap(), &task));
    assert!(!evaluate(&parse("notes ^^ plumber").unwrap(), &task));
    assert!(evaluate(&parse("notes != \"something else\"").unwrap(), &task));

    let empty = Task::new("no notes");
    assert!(!evaluate(&parse("notes = anything").unwrap(), &empty));
    assert!(evaluate(&parse("notes != anything").unwrap(), &empty));
}

#[test]
fn test_evaluate_logical_combinations() {
    let task = Task::new("pay rent").with_priority(3).with_context("home");

    assert!(evaluate(&parse("priority > 2 and context = home").unwrap(), &task));
    assert!(!evaluate(&parse("priority > 5 and context = home").unwrap(), &task));
    assert!(evaluate(&parse("priority > 5 or context = home").unwrap(), &task));
    assert!(evaluate(&parse("(rent) and priority >= 3").unwrap(), &task));
}

#[test]
fn test_search_keeps_order() {
    let a = Task::new("alpha errand").with_priority(9);
    let b = Task::new("beta errand").with_priority(1);
    let c = Task::new("gamma errand").with_priority(5);
    let list = List::new(vec![b.clone(), a.clone(), c.clone()]);

    let ast = parse("errand").unwrap();
    let found = list.search(&ast);
    assert_eq!(found.len(), 3);
    assert_eq!(found[0].title, "alpha errand");
    assert_eq!(found[1].title, "gamma errand");
    assert_eq!(found[2].title, "beta errand");
}
