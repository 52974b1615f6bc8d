use netxt::{today, Date, Day, Section, Task, Todo, TodoError};
use netxt::util::get_last_day;

fn d(y: u32, m: u32, day: u32) -> Date {
    Date::new(y, m, day)
}

#[test]
fn parse_todo() {
    let contents = "[2024-03-06]\n\
                    Section 1\n\
                    - task 1\n\
                    - task 3\n\
                    - task 2\n\
                    Done\n\
                    \n\
                    [2024-03-07]\n\
                    Section 2\n\
                    - task 11\n\
                    - task 31\n\
                    - task 21\n\
                    Done\n\
                    - task 4\n";
    let expected = Todo {
        days: vec![
            Day {
                date: d(2024, 3, 6),
                sections: vec![
                    Section {
                        name: "Section 1".to_string(),
                        tasks: vec![
                            Task {
                                text: "task 1".to_string(),
                            },
                            Task {
                                text: "task 3".to_string(),
                            },
                            Task {
                                text: "task 2".to_string(),
                            },
                        ],
                    },
                    Section {
                        name: "Done".to_string(),
                        tasks: vec![],
                    },
                ],
            },
            Day {
                date: d(2024, 3, 7),
                sections: vec![
                    Section {
                        name: "Section 2".to_string(),
                        tasks: vec![
                            Task {
                                text: "task 11".to_string(),
                            },
                            Task {
                                text: "task 31".to_string(),
                            },
                            Task {
                                text: "task 21".to_string(),
                            },
                        ],
                    },
                    Section {
                        name: "Done".to_string(),
                        tasks: vec![Task {
                            text: "task 4".to_string(),
                        }],
                    },
                ],
            },
        ],
    };

    let actual = Todo::load(contents, d(2024, 3, 8)).expect("Unable to load file");
    assert_eq!(actual, expected);
}

#[test]
fn add_task() {
    let today = d(2024, 3, 7);
    let base = Todo {
        days: vec![Day {
            date: today,
            sections: vec![
                Section {
                    name: "Section 1".to_string(),
                    tasks: vec![
                        Task {
                            text: "task 1".to_string(),
                        },
                        Task {
                            text: "task 2".to_string(),
                        },
                        Task {
                            text: "task 3".to_string(),
                        },
                    ],
                },
                Section {
                    name: "Done".to_string(),
                    tasks: vec![],
                },
            ],
        }],
    };

    let expected = Todo {
        days: vec![Day {
            date: today,
            sections: vec![
                Section {
                    name: "Section 1".to_string(),
                    tasks: vec![
                        Task {
                            text: "task 1".to_string(),
                        },
                        Task {
                            text: "task 2".to_string(),
                        },
                        Task {
                            text: "task 3".to_string(),
                        },
                        Task {
                            text: "added task".to_string(),
                        },
                    ],
                },
                Section {
                    name: "Done".to_string(),
                    tasks: vec![],
                },
            ],
        }],
    };

    let mut actual = base.clone();
    actual.add("- added task", "Section 1", today).unwrap();
    assert_eq!(actual, expected);
}

#[test]
fn add_task_new_section() {
    let today = d(2024, 3, 7);
    let base = Todo {
        days: vec![Day {
            date: today,
            sections: vec![
                Section {
                    name: "Section 1".to_string(),
                    tasks: vec![
                        Task {
                            text: "task 1".to_string(),
                        },
                        Task {
                            text: "task 2".to_string(),
                        },
                        Task {
                            text: "task 3".to_string(),
                        },
                    ],
                },
                Section {
                    name: "Done".to_string(),
                    tasks: vec![],
                },
            ],
        }],
    };

    let expected = Todo {
        days: vec![Day {
            date: today,
            sections: vec![
                Section {
                    name: "Section 1".to_string(),
                    tasks: vec![
                        Task {
                            text: "task 1".to_string(),
                        },
                        Task {
                            text: "task 2".to_string(),
                        },
                        Task {
                            text: "task 3".to_string(),
                        },
                    ],
                },
                Section {
                    name: "Done".to_string(),
                    tasks: vec![],
                },
                // the new section comes at the very end, not before Done
                Section {
                    name: "New Section".to_string(),
                    tasks: vec![Task {
                        text: "added task".to_string(),
                    }],
                },
            ],
        }],
    };

    let mut actual = base.clone();
    actual.add("- added task", "New Section", today).unwrap();
    assert_eq!(actual, expected);
}

#[test]
fn next_day() {
    let yesterday = d(2024, 3, 6);
    let today = d(2024, 3, 7);
    let base = Todo {
        days: vec![Day {
            date: yesterday,
            sections: vec![
                Section {
                    name: "Section 1".to_string(),
                    tasks: vec![
                        Task {
                            text: "task 1".to_string(),
                        },
                        Task {
                            text: "task 2".to_string(),
                        },
                    ],
                },
                Section {
                    name: "Done".to_string(),
                    tasks: vec![Task {
                        text: "task 3".to_string(),
                    }],
                },
            ],
        }],
    };

    let expected = Todo {
        days: vec![
            Day {
                date: yesterday,
                sections: vec![
                    Section {
                        name: "Section 1".to_string(),
                        tasks: vec![
                            Task {
                                text: "task 1".to_string(),
                            },
                            Task {
                                text: "task 2".to_string(),
                            },
                        ],
                    },
                    Section {
                        name: "Done".to_string(),
                        tasks: vec![Task {
                            text: "task 3".to_string(),
                        }],
                    },
                ],
            },
            Day {
                date: today,
                sections: vec![
                    Section {
                        name: "Section 1".to_string(),
                        tasks: vec![
                            Task {
                                text: "task 1".to_string(),
                            },
                            Task {
                                text: "task 2".to_string(),
                            },
                        ],
                    },
                    Section {
                        name: "Done".to_string(),
                        tasks: vec![],
                    },
                ],
            },
        ],
    };

    let mut actual = base.clone();
    actual.next_day(today);
    assert_eq!(actual, expected);
}

#[test]
fn next_day_is_idempotent() {
    let today = d(2024, 3, 7);
    let mut once = Todo {
        days: vec![Day {
            date: d(2024, 3, 6),
            sections: vec![Section {
                name: "A".to_string(),
                tasks: vec![Task {
                    text: "x".to_string(),
                }],
            }],
        }],
    };
    once.next_day(today);
    let mut twice = once.clone();
    twice.next_day(today);
    assert_eq!(once, twice);
}

#[test]
fn next_day_creates_done_when_missing() {
    let today = d(2024, 3, 7);
    let mut t = Todo {
        days: vec![Day {
            date: d(2024, 3, 6),
            sections: vec![Section {
                name: "A".to_string(),
                tasks: vec![Task {
                    text: "x".to_string(),
                }],
            }],
        }],
    };
    t.next_day(today);
    let new_day = &t.days[1];
    assert_eq!(new_day.date, today);
    assert_eq!(new_day.sections.len(), 2);
    assert_eq!(new_day.sections[0].name, "A");
    assert_eq!(new_day.sections[0].tasks.len(), 1);
    assert_eq!(new_day.sections[1].name, "Done");
    assert!(new_day.sections[1].tasks.is_empty());
}

#[test]
fn clock_skew_refuses_load() {
    let contents = "[2024-03-08]\n- future task\n";
    let r = Todo::load(contents, d(2024, 3, 7));
    assert_eq!(r, Err(TodoError::ClockSkew));
}

#[test]
fn save_twice_reports_up_to_date() {
    let today = d(2024, 3, 7);
    let mut t = Todo {
        days: vec![Day {
            date: today,
            sections: vec![Section {
                name: "A".to_string(),
                tasks: vec![Task {
                    text: "x".to_string(),
                }],
            }],
        }],
    };
    let text = t.save("", today).expect("first save must produce the file text");
    assert_eq!(text, "[2024-03-07]\nA\n- x");
    let second = t.save(&text, today);
    assert_eq!(second, Err(TodoError::UpToDate));
}

#[test]
fn load_change_save_save_is_up_to_date() {
    let today = d(2024, 3, 8);
    let disk = "[2024-03-06]\nSection 1\n-  task 1\n  - task 2\nDone\n\n[2024-03-07]\n- task A\n";
    let mut t = Todo::load(disk, today).unwrap();
    t.add("- new task", "Inbox", today).unwrap();
    let text = t.save(disk, today).unwrap();
    assert_eq!(t.save(&text, today), Err(TodoError::UpToDate));
}

#[test]
fn save_merges_days_missing_from_memory() {
    let today = d(2024, 3, 7);
    let disk = "[2024-03-05]\nOld\n- old task\n";
    let mut t = Todo {
        days: vec![Day {
            date: today,
            sections: vec![Section {
                name: "A".to_string(),
                tasks: vec![Task {
                    text: "x".to_string(),
                }],
            }],
        }],
    };
    let text = t.save(disk, today).unwrap();
    assert_eq!(t.days.len(), 2);
    // descending date order in the written file
    assert_eq!(text, "[2024-03-07]\nA\n- x\n\n[2024-03-05]\nOld\n- old task");
    assert_eq!(t.days[0].date, today);
    assert_eq!(t.days[1].date, d(2024, 3, 5));
}

#[test]
fn save_clock_skew_on_future_file() {
    let today = d(2024, 3, 7);
    let disk = "[2024-03-09]\n- from the future\n";
    let mut t = Todo { days: vec![] };
    assert_eq!(t.save(disk, today), Err(TodoError::ClockSkew));
}

#[test]
fn duplicate_date_last_wins() {
    let contents = "[2024-03-06]\nA\n- first\n\n[2024-03-06]\nB\n- second\n";
    let t = Todo::from_str(contents).unwrap();
    assert_eq!(t.days.len(), 1);
    assert_eq!(t.days[0].sections[0].name, "B");
}

#[test]
fn parse_example_log() {
    let contents = "[2024-03-06]\n\
                    Section 1\n\
                    - task 1\n\
                    - task 3\n\
                    Done\n\
                    \n\
                    [2024-03-07]\n\
                    - task A\n\
                    Done\n\
                    - task 4\n";
    let t = Todo::from_str(contents).unwrap();
    assert_eq!(t.days.len(), 2);
    let second = &t.days[1];
    assert_eq!(second.date, d(2024, 3, 7));
    assert_eq!(second.sections.len(), 2);
    assert_eq!(second.sections[0].name, "");
    assert_eq!(second.sections[0].tasks, vec![Task { text: "task A".to_string() }]);
    assert_eq!(second.sections[1].name, "Done");
    assert_eq!(second.sections[1].tasks, vec![Task { text: "task 4".to_string() }]);
}

#[test]
fn get_last_day_scans_from_the_end() {
    let contents = "[2024-03-06]\n- a\n[2024-03-07]\n- b\nnot a date\n";
    assert_eq!(get_last_day(contents), Some(Date::new(2024, 3, 7)));
    assert_eq!(get_last_day("no dates at all"), None);
}

#[test]
fn get_last_day_handles_carriage_returns() {
    let contents = "[2024-03-06]\r\n- a\r\n";
    assert_eq!(get_last_day(contents), Some(Date::new(2024, 3, 6)));
}

#[test]
fn date_of_ymd_accepts_exactly_four_digit_years() {
    assert_eq!(netxt::util::date_of_ymd(2024, 3, 7), Some(Date::new(2024, 3, 7)));
    assert_eq!(netxt::util::date_of_ymd(-1, 3, 7), None);
    assert_eq!(netxt::util::date_of_ymd(10000, 3, 7), None);
}

#[test]
fn today_is_a_valid_date() {
    let t = today().expect("the clock's date fits the date line");
    assert!(t.is_valid());
    assert!(t.year >= 2024);
}

#[test]
fn empty_log_round_trips() {
    let t = Todo::empty();
    assert_eq!(t.days.len(), 0);
    let t2 = Todo::from_str("").unwrap();
    assert_eq!(t, t2);
}
