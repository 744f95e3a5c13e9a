use staff_roster::command::handle_input;
use staff_roster::roster::Roster;

fn add(roster: &mut Roster, name: &str, department: &str) {
    let request = handle_input(format!("Add {name} to {department}")).unwrap();
    roster.add(request);
}

fn listing(entries: &[(&str, &[&str])]) -> Vec<(String, Vec<String>)> {
    entries
        .iter()
        .map(|(department, members)| {
            (department.to_string(), members.iter().map(|member| member.to_string()).collect())
        })
        .collect()
}

#[test]
fn a_new_roster_is_empty() {
    let roster = Roster::new();
    assert_eq!(roster.all_members_by_department(), listing(&[]));
    assert_eq!(roster.members_of("Sales"), Vec::<String>::new());
}

#[test]
fn the_first_member_creates_the_department() {
    let mut roster = Roster::new();
    add(&mut roster, "Amir", "Sales");
    assert_eq!(roster.members_of("Sales"), vec!["Amir"]);
    assert_eq!(roster.all_members_by_department(), listing(&[("Sales", &["Amir"])]));
}

#[test]
fn later_members_join_the_department() {
    let mut roster = Roster::new();
    add(&mut roster, "Timo", "Engineering");
    add(&mut roster, "Sally", "Engineering");
    add(&mut roster, "Amir", "Engineering");
    assert_eq!(roster.members_of("Engineering"), vec!["Amir", "Sally", "Timo"]);
    assert_eq!(
        roster.all_members_by_department(),
        listing(&[("Engineering", &["Amir", "Sally", "Timo"])])
    );
}

#[test]
fn a_department_that_is_not_there_has_no_members() {
    let mut roster = Roster::new();
    add(&mut roster, "Amir", "Sales");
    assert_eq!(roster.members_of("Marketing"), Vec::<String>::new());
    assert_eq!(roster.members_of(""), Vec::<String>::new());
    assert_eq!(roster.members_of("Sale"), Vec::<String>::new());
    assert_eq!(roster.members_of("Sales."), Vec::<String>::new());
}

#[test]
fn department_names_are_case_sensitive() {
    let mut roster = Roster::new();
    add(&mut roster, "Amir", "Sales");
    add(&mut roster, "Lisa", "sales");
    assert_eq!(roster.members_of("Sales"), vec!["Amir"]);
    assert_eq!(roster.members_of("sales"), vec!["Lisa"]);
    assert_eq!(roster.members_of("SALES"), Vec::<String>::new());
    assert_eq!(
        roster.all_members_by_department(),
        listing(&[("Sales", &["Amir"]), ("sales", &["Lisa"])])
    );
}

#[test]
fn the_same_name_twice_is_listed_twice() {
    let mut roster = Roster::new();
    add(&mut roster, "Sally", "Engineering");
    add(&mut roster, "Sally", "Engineering");
    assert_eq!(roster.members_of("Engineering"), vec!["Sally", "Sally"]);
    assert_eq!(
        roster.all_members_by_department(),
        listing(&[("Engineering", &["Sally", "Sally"])])
    );
}

#[test]
fn the_same_name_twice_among_others() {
    let mut roster = Roster::new();
    add(&mut roster, "Sally", "Engineering");
    add(&mut roster, "Amir", "Engineering");
    add(&mut roster, "Sally", "Sales");
    add(&mut roster, "Sally", "Engineering");
    add(&mut roster, "Sally", "Engineering");
    assert_eq!(roster.members_of("Engineering"), vec!["Amir", "Sally", "Sally", "Sally"]);
    assert_eq!(roster.members_of("Sales"), vec!["Sally"]);
}

#[test]
fn departments_and_members_come_sorted() {
    let mut roster = Roster::new();
    add(&mut roster, "Zed", "Sales");
    add(&mut roster, "Bob", "Engineering");
    add(&mut roster, "Eve", "Marketing");
    add(&mut roster, "Ann", "Sales");
    add(&mut roster, "amy", "Engineering");
    add(&mut roster, "Al", "Engineering");
    add(&mut roster, "Kim", "Accounting");
    assert_eq!(
        roster.all_members_by_department(),
        listing(&[
            ("Accounting", &["Kim"]),
            ("Engineering", &["Al", "Bob", "amy"]),
            ("Marketing", &["Eve"]),
            ("Sales", &["Ann", "Zed"]),
        ])
    );
}

#[test]
fn the_listing_does_not_depend_on_the_order_of_the_additions() {
    let additions = [
        ("Zed", "Sales"),
        ("Bob", "Engineering"),
        ("Eve", "Marketing"),
        ("Ann", "Sales"),
        ("Bob", "Sales"),
        ("Al", "Engineering"),
        ("Bob", "Engineering"),
    ];
    let mut forward = Roster::new();
    for (name, department) in additions {
        add(&mut forward, name, department);
    }
    let mut backward = Roster::new();
    for (name, department) in additions.iter().rev() {
        add(&mut backward, name, department);
    }
    let mut rotated = Roster::new();
    for k in 0..additions.len() {
        let (name, department) = additions[(k + 3) % additions.len()];
        add(&mut rotated, name, department);
    }
    let expected = listing(&[
        ("Engineering", &["Al", "Bob", "Bob"]),
        ("Marketing", &["Eve"]),
        ("Sales", &["Ann", "Bob", "Zed"]),
    ]);
    assert_eq!(forward.all_members_by_department(), expected);
    assert_eq!(backward.all_members_by_department(), expected);
    assert_eq!(rotated.all_members_by_department(), expected);
}

#[test]
fn queries_do_not_change_the_roster() {
    let mut roster = Roster::new();
    add(&mut roster, "Timo", "Engineering");
    add(&mut roster, "Amir", "Engineering");
    let first = roster.all_members_by_department();
    let members = roster.members_of("Engineering");
    assert_eq!(members, vec!["Amir", "Timo"]);
    assert_eq!(roster.all_members_by_department(), first);
    add(&mut roster, "Bea", "Engineering");
    assert_eq!(roster.members_of("Engineering"), vec!["Amir", "Bea", "Timo"]);
}

#[test]
fn four_commands_fill_three_departments() {
    let commands = [
        "Add Amir to Sales.",
        "Add Timo to Engineering",
        "Add TimosBrother to Engineering",
        "Add Lisa to Marketing",
    ];
    let mut roster = Roster::new();
    for command in commands {
        roster.add(handle_input(command.to_string()).unwrap());
    }
    assert_eq!(
        roster.all_members_by_department(),
        listing(&[
            ("Engineering", &["Timo", "TimosBrother"]),
            ("Marketing", &["Lisa"]),
            ("Sales.", &["Amir"]),
        ])
    );
}

#[test]
fn a_request_gives_up_its_parts() {
    let request = handle_input("Add Amir to Sales.".to_string()).unwrap();
    assert_eq!(request.name(), "Amir");
    assert_eq!(request.department(), "Sales.");
    assert_eq!(request.into_parts(), ("Amir".to_string(), "Sales.".to_string()));
}
