use netxt::{Date, Day, Section, Task, TodoError};

#[test]
fn parse_task() {
    let task_line = "- pick up dry cleaning";
    let actual = Task::from_str(task_line).expect("Unable to parse task");
    let expected = Task {
        text: "pick up dry cleaning".to_string(),
    };
    assert_eq!(actual, expected);
}

#[test]
fn parse_section() {
    let section_text = "Some Section\n- task 1\n- task 3\n- task 2\n\n";
    let actual = Section::from_str(section_text).expect("Unable to parse day");
    let expected = Section {
        name: "Some Section".to_string(),
        tasks: vec![
            Task {
                text: "task 1".to_string(),
            },
            Task {
                text: "task 3".to_string(),
            },
            Task {
                text: "task 2".to_string(),
            },
        ],
    };
    assert_eq!(actual, expected);
}

#[test]
fn parse_day() {
    let day_text = "[2024-03-06]\n\
                    Section 1\n\
                    - task 1\n\
                    - task 3\n\
                    - task 2\n\
                    \n\
                    Section 2\n\
                    - task 2.1\n\
                    - task 2.2\n\
                    Section 3\n\
                    - task 3.2\n\
                    - task 3.1\n";

    let actual = Day::from_str(day_text).expect("Unable to parse day");
    let expected = Day {
        date: Date::new(2024, 3, 6),
        sections: vec![
            Section {
                name: "Section 1".to_string(),
                tasks: vec![
                    Task {
                        text: "task 1".to_string(),
                    },
                    Task {
                        text: "task 3".to_string(),
                    },
                    Task {
                        text: "task 2".to_string(),
                    },
                ],
            },
            Section {
                name: "Section 2".to_string(),
                tasks: vec![
                    Task {
                        text: "task 2.1".to_string(),
                    },
                    Task {
                        text: "task 2.2".to_string(),
                    },
                ],
            },
            Section {
                name: "Section 3".to_string(),
                tasks: vec![
                    Task {
                        text: "task 3.2".to_string(),
                    },
                    Task {
                        text: "task 3.1".to_string(),
                    },
                ],
            },
        ],
    };
    assert_eq!(actual, expected);
}

#[test]
fn day_with_anonymous_section() {
    let day_text = "[2024-03-06]\n\
                    - task A\n\
                    - task B\n\
                    - task C\n\
                    \n\
                    Section 2\n\
                    - task 2.1\n\
                    - task 2.2\n\
                    Section 3\n\
                    - task 3.2\n\
                    - task 3.1\n";

    let actual = Day::from_str(day_text).expect("Unable to parse day");
    let expected = Day {
        date: Date::new(2024, 3, 6),
        sections: vec![
            Section {
                name: "".to_string(),
                tasks: vec![
                    Task {
                        text: "task A".to_string(),
                    },
                    Task {
                        text: "task B".to_string(),
                    },
                    Task {
                        text: "task C".to_string(),
                    },
                ],
            },
            Section {
                name: "Section 2".to_string(),
                tasks: vec![
                    Task {
                        text: "task 2.1".to_string(),
                    },
                    Task {
                        text: "task 2.2".to_string(),
                    },
                ],
            },
            Section {
                name: "Section 3".to_string(),
                tasks: vec![
                    Task {
                        text: "task 3.2".to_string(),
                    },
                    Task {
                        text: "task 3.1".to_string(),
                    },
                ],
            },
        ],
    };
    assert_eq!(actual, expected);
}

#[test]
fn task_round_trip() {
    let task = Task {
        text: "water the plants".to_string(),
    };
    let line = task.serialize();
    assert_eq!(line, "- water the plants");
    let back = Task::from_str(&line).unwrap();
    assert_eq!(back, task);
}

#[test]
fn empty_task_round_trip() {
    let task = Task {
        text: "".to_string(),
    };
    let line = task.serialize();
    assert_eq!(line, "-");
    let back = Task::from_str(&line).unwrap();
    assert_eq!(back, task);
}

#[test]
fn section_round_trip() {
    let section = Section {
        name: "Errands".to_string(),
        tasks: vec![
            Task {
                text: "buy milk".to_string(),
            },
            Task {
                text: "post letter".to_string(),
            },
        ],
    };
    let text = section.serialize();
    assert_eq!(text, "Errands\n- buy milk\n- post letter");
    let back = Section::from_str(&text).unwrap();
    assert_eq!(back, section);
}

#[test]
fn anonymous_section_round_trip() {
    let section = Section {
        name: "".to_string(),
        tasks: vec![Task {
            text: "solo task".to_string(),
        }],
    };
    let text = section.serialize();
    assert_eq!(text, "- solo task");
    let back = Section::from_str(&text).unwrap();
    assert_eq!(back, section);
}

#[test]
fn day_round_trip() {
    let day = Day {
        date: Date::new(2023, 12, 31),
        sections: vec![
            Section {
                name: "Home".to_string(),
                tasks: vec![Task {
                    text: "sweep".to_string(),
                }],
            },
            Section {
                name: "Done".to_string(),
                tasks: vec![],
            },
        ],
    };
    let text = day.serialize();
    assert_eq!(text, "[2023-12-31]\nHome\n- sweep\n\nDone");
    let back = Day::from_str(&text).unwrap();
    assert_eq!(back, day);
}

#[test]
fn task_line_must_start_with_marker() {
    assert_eq!(
        Task::from_str("pick up dry cleaning"),
        Err(TodoError::MalformedTask)
    );
    assert_eq!(Task::from_str("   "), Err(TodoError::MalformedTask));
}

#[test]
fn malformed_date_fails_day_parse() {
    assert_eq!(
        Day::from_str("[2024-13-01]\n- task"),
        Err(TodoError::MalformedDate)
    );
    assert_eq!(
        Day::from_str("[2024-3-06]\n- task"),
        Err(TodoError::MalformedDate)
    );
    assert_eq!(Day::from_str("no date here"), Err(TodoError::MalformedDate));
}

#[test]
fn leap_day_parses() {
    let day = Day::from_str("[2024-02-29]").unwrap();
    assert_eq!(day.date, Date::new(2024, 2, 29));
    assert_eq!(
        Day::from_str("[2023-02-29]"),
        Err(TodoError::MalformedDate)
    );
}

#[test]
fn blank_line_inside_section_is_malformed() {
    let day_text = "[2024-03-06]\nSection 1\n- task 1\n\n- task 2\nSection 2";
    assert_eq!(Day::from_str(day_text), Err(TodoError::MalformedTask));
}

#[test]
fn extreme_dates_round_trip() {
    let late = Day::from_str("[9999-12-31]").unwrap();
    assert_eq!(late.date, Date::new(9999, 12, 31));
    assert_eq!(late.serialize(), "[9999-12-31]");
    let early = Day::from_str("[0001-01-01]").unwrap();
    assert_eq!(early.date, Date::new(1, 1, 1));
    assert_eq!(early.serialize(), "[0001-01-01]");
}

#[test]
fn indented_task_line_stays_in_its_section() {
    // classification goes by the first non-whitespace character: an indented
    // task line neither ends the running section nor opens a new one
    let day = Day::from_str("[2024-03-06]\nSection 1\n- task 1\n  - task 2").unwrap();
    assert_eq!(day.sections.len(), 1);
    assert_eq!(day.sections[0].name, "Section 1");
    assert_eq!(
        day.sections[0].tasks,
        vec![
            Task {
                text: "task 1".to_string(),
            },
            Task {
                text: "task 2".to_string(),
            },
        ]
    );
}

#[test]
fn indented_name_line_ends_the_running_section() {
    let day = Day::from_str("[2024-03-06]\n- task 1\n  Section 2\n- task 2").unwrap();
    assert_eq!(day.sections.len(), 2);
    assert_eq!(day.sections[0].name, "");
    assert_eq!(day.sections[1].name, "Section 2");
}

#[test]
fn unicode_whitespace_is_trimmed() {
    let task = Task::from_str("\u{a0}- watered\u{2002}garden\u{a0}").unwrap();
    assert_eq!(task.text, "watered\u{2002}garden");
}

#[test]
fn task_text_is_kept_verbatim_after_marker() {
    let task = Task::from_str("-   spaced   out  ").unwrap();
    assert_eq!(task.text, "spaced   out");
    let task = Task::from_str("-- double dash").unwrap();
    assert_eq!(task.text, "double dash");
}
