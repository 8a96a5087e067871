use task_orchestrator::task::{read_tasks_from_csv, tasks_from_table, InputError};

fn strings(fields: &[&str]) -> Vec<String> {
    fields.iter().map(|field| field.to_string()).collect()
}

#[test]
fn test_read_tasks_from_csv() {
    let csv_content = "task_id,task_type\n101,process_data\n102,process_data\n";

    let tasks = read_tasks_from_csv(csv_content).unwrap();
    assert_eq!(tasks.len(), 2);
    assert_eq!(tasks[0].task_id, 101);
    assert_eq!(tasks[1].task_id, 102);
    assert_eq!(tasks[0].task_type, "process_data");
    assert_eq!(tasks[1].task_type, "process_data");
}

#[test]
fn header_only_holds_no_task() {
    assert!(read_tasks_from_csv("task_id,task_type\n").unwrap().is_empty());
    assert!(read_tasks_from_csv("task_id,task_type").unwrap().is_empty());
}

#[test]
fn empty_text_holds_no_task() {
    assert!(read_tasks_from_csv("").unwrap().is_empty());
}

#[test]
fn header_without_records_is_not_judged() {
    assert!(read_tasks_from_csv("anything,else\n").unwrap().is_empty());
}

#[test]
fn columns_are_found_by_name() {
    let tasks = read_tasks_from_csv("note,task_type,task_id\nx,fetch,7\ny,store,8\n").unwrap();
    assert_eq!(tasks.len(), 2);
    assert_eq!(tasks[0].task_id, 7);
    assert_eq!(tasks[0].task_type, "fetch");
    assert_eq!(tasks[1].task_id, 8);
    assert_eq!(tasks[1].task_type, "store");
}

#[test]
fn quoted_fields_are_unquoted() {
    let tasks = read_tasks_from_csv("task_id,task_type\n5,\"a,\"\"b\"\"\"\n").unwrap();
    assert_eq!(tasks.len(), 1);
    assert_eq!(tasks[0].task_id, 5);
    assert_eq!(tasks[0].task_type, "a,\"b\"");
}

#[test]
fn duplicate_identities_are_kept() {
    let tasks = read_tasks_from_csv("task_id,task_type\n101,a\n101,b\n").unwrap();
    assert_eq!(tasks.len(), 2);
    assert_eq!(tasks[0].task_id, 101);
    assert_eq!(tasks[1].task_id, 101);
    assert_eq!(tasks[1].task_type, "b");
}

#[test]
fn identity_may_be_hexadecimal() {
    let tasks = read_tasks_from_csv("task_id,task_type\n0x1F,a\n+12,b\n").unwrap();
    assert_eq!(tasks[0].task_id, 31);
    assert_eq!(tasks[1].task_id, 12);
}

#[test]
fn ragged_table_is_refused() {
    assert_eq!(
        read_tasks_from_csv("task_id,task_type\n1,a,extra\n").err(),
        Some(InputError::Table)
    );
    assert_eq!(read_tasks_from_csv("task_id,task_type\n1\n").err(), Some(InputError::Table));
}

#[test]
fn missing_column_is_reported() {
    assert_eq!(
        read_tasks_from_csv("task_id,kind\n1,a\n").err(),
        Some(InputError::MissingColumn)
    );
    assert_eq!(
        read_tasks_from_csv("id,task_type\n1,a\n").err(),
        Some(InputError::MissingColumn)
    );
}

#[test]
fn duplicate_column_is_reported() {
    assert_eq!(
        read_tasks_from_csv("task_id,task_type,task_id\n1,a,2\n").err(),
        Some(InputError::DuplicateColumn)
    );
}

#[test]
fn first_invalid_record_is_reported() {
    assert_eq!(
        read_tasks_from_csv("task_id,task_type\n1,a\nabc,b\n-3,c\n").err(),
        Some(InputError::InvalidRecord { record: 1 })
    );
    assert_eq!(
        read_tasks_from_csv("task_id,task_type\n18446744073709551616,a\n").err(),
        Some(InputError::InvalidRecord { record: 0 })
    );
    assert_eq!(
        read_tasks_from_csv("task_id,task_type\n 7,a\n").err(),
        Some(InputError::InvalidRecord { record: 0 })
    );
}

#[test]
fn table_of_fields_is_read_directly() {
    let header = strings(&["task_id", "task_type"]);
    let records = vec![strings(&["3", "a"]), strings(&["4", "b"])];
    let tasks = tasks_from_table(&header, &records).unwrap();
    assert_eq!(tasks.len(), 2);
    assert_eq!(tasks[0].task_id, 3);
    assert_eq!(tasks[1].task_type, "b");
}

#[test]
fn short_record_holds_no_task() {
    let header = strings(&["task_id", "task_type"]);
    let records = vec![strings(&["3", "a"]), strings(&["4"])];
    assert_eq!(
        tasks_from_table(&header, &records).err(),
        Some(InputError::InvalidRecord { record: 1 })
    );
}
