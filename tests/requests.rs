use phonebook::cli::{parse_command, Command, CommandError};
use phonebook::models::Person;
use phonebook::requests::{
    city_complete, name_filter, name_parameter, name_width, person_complete, route_endpoints, QueryError,
};

fn pairs(items: &[(&str, &str)]) -> Vec<(String, String)> {
    items.iter().map(|(k, v)| (k.to_string(), v.to_string())).collect()
}

fn args(items: &[&str]) -> Vec<String> {
    items.iter().map(|s| s.to_string()).collect()
}

fn person(name: &str) -> Person {
    Person { id: None, name: name.to_string(), phone: "1".to_string() }
}

#[test]
fn route_endpoints_in_either_order() {
    let r = route_endpoints(&pairs(&[("to", "B"), ("from", "A")]));
    assert_eq!(r, Ok(("A".to_string(), "B".to_string())));
    let r = route_endpoints(&pairs(&[("from", "X"), ("to", "Y")]));
    assert_eq!(r, Ok(("X".to_string(), "Y".to_string())));
}

#[test]
fn route_endpoints_need_two_pairs() {
    assert_eq!(route_endpoints(&pairs(&[("from", "A")])), Err(QueryError::WrongCount));
    assert_eq!(
        route_endpoints(&pairs(&[("from", "A"), ("to", "B"), ("to", "C")])),
        Err(QueryError::WrongCount)
    );
}

#[test]
fn route_endpoints_report_a_missing_key() {
    assert_eq!(route_endpoints(&pairs(&[("to", "A"), ("to", "B")])), Err(QueryError::MissingFrom));
    assert_eq!(route_endpoints(&pairs(&[("from", "A"), ("via", "B")])), Err(QueryError::MissingTo));
}

#[test]
fn repeated_key_keeps_last_value() {
    assert_eq!(route_endpoints(&pairs(&[("from", "A"), ("from", "B")])), Err(QueryError::MissingTo));
}

#[test]
fn name_parameter_cases() {
    assert_eq!(name_parameter(&pairs(&[("name", "Ann")])), Ok(Some("Ann".to_string())));
    assert_eq!(name_parameter(&pairs(&[("nick", "Ann")])), Ok(None));
    assert_eq!(name_parameter(&pairs(&[])), Err(QueryError::WrongCount));
    assert_eq!(name_parameter(&pairs(&[("name", "a"), ("name", "b")])), Err(QueryError::WrongCount));
}

#[test]
fn records_need_name_and_phone() {
    assert!(person_complete("Ann", "123"));
    assert!(!person_complete("", "123"));
    assert!(!person_complete("Ann", ""));
    assert!(city_complete("Oslo"));
    assert!(!city_complete(""));
}

#[test]
fn name_filter_clause() {
    assert_eq!(name_filter(Some("an")), "WHERE name LIKE '%an%'");
    assert_eq!(name_filter(None), "");
}

#[test]
fn name_width_counts_characters() {
    assert_eq!(name_width(&vec![]), 0);
    assert_eq!(name_width(&vec![person("Bo"), person("Åsa Öberg"), person("Al")]), 9);
}

#[test]
fn no_command_serves() {
    assert!(matches!(parse_command(&args(&["phonebook"])), Ok(Command::Serve)));
    assert!(matches!(parse_command(&args(&["phonebook", "help"])), Ok(Command::Help)));
}

#[test]
fn add_takes_name_and_phone() {
    match parse_command(&args(&["p", "add", "Ann", "555"])) {
        Ok(Command::Add { name, phone }) => {
            assert_eq!(name, "Ann");
            assert_eq!(phone, "555");
        }
        other => panic!("unexpected {:?}", other),
    }
    assert!(matches!(parse_command(&args(&["p", "add", "Ann"])), Err(CommandError::AddUsage)));
}

#[test]
fn del_takes_one_or_more_ids() {
    match parse_command(&args(&["p", "del", "3", "7"])) {
        Ok(Command::Del { ids }) => assert_eq!(ids, vec!["3".to_string(), "7".to_string()]),
        other => panic!("unexpected {:?}", other),
    }
    assert!(matches!(parse_command(&args(&["p", "del"])), Err(CommandError::DelUsage)));
}

#[test]
fn edit_and_show_arguments() {
    match parse_command(&args(&["p", "edit", "2", "Bo", "9"])) {
        Ok(Command::Edit { id, name, phone }) => {
            assert_eq!((id.as_str(), name.as_str(), phone.as_str()), ("2", "Bo", "9"));
        }
        other => panic!("unexpected {:?}", other),
    }
    assert!(matches!(parse_command(&args(&["p", "edit", "2"])), Err(CommandError::EditUsage)));
    match parse_command(&args(&["p", "show", "an"])) {
        Ok(Command::Show { filter }) => assert_eq!(filter, Some("an".to_string())),
        other => panic!("unexpected {:?}", other),
    }
    assert!(matches!(parse_command(&args(&["p", "show"])), Ok(Command::Show { filter: None })));
    assert!(matches!(parse_command(&args(&["p", "show", "a", "b"])), Err(CommandError::ShowUsage)));
}

#[test]
fn unknown_command_is_named() {
    match parse_command(&args(&["p", "launch"])) {
        Err(CommandError::Unknown(c)) => assert_eq!(c, "launch"),
        other => panic!("unexpected {:?}", other),
    }
}
