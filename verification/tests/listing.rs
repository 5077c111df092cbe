use rollout_sessions::session::plan_conversations_page;
use rollout_sessions::session::attach_heads;
use rollout_sessions::session::empty_page;
use rollout_sessions::walk::DayDir;
use rollout_sessions::walk::MonthDir;
use rollout_sessions::walk::SessionsDir;
use rollout_sessions::walk::YearDir;

const ID1: &str = "99999999-9999-4999-8999-999999999999";
const ID2: &str = "11111111-1111-4111-8111-111111111111";

fn day(name: &str, files: &[String]) -> DayDir {
    DayDir { name: name.to_string(), files: files.to_vec() }
}

fn snapshot(years: Vec<YearDir>) -> SessionsDir {
    SessionsDir { years }
}

fn two_file_snapshot() -> SessionsDir {
    let f1 = format!("rollout-2024-01-02T10-00-00-{ID1}.jsonl");
    let f2 = format!("rollout-2024-01-02T09-00-00-{ID2}.jsonl");
    snapshot(vec![YearDir {
        name: "2024".to_string(),
        months: vec![MonthDir {
            name: "01".to_string(),
            days: vec![day("02", &[f2, f1])],
        }],
    }])
}

#[test]
fn single_item_pages_with_cursor_hand_off() {
    let snap = two_file_snapshot();
    let page1 = plan_conversations_page("home/sessions", &snap, 1, None);
    assert_eq!(page1.selected.len(), 1);
    assert!(
        page1.selected[0]
            .path
            .ends_with(&format!("rollout-2024-01-02T10-00-00-{ID1}.jsonl"))
    );
    assert_eq!(
        page1.selected[0].path,
        format!("home/sessions/2024/01/02/rollout-2024-01-02T10-00-00-{ID1}.jsonl")
    );
    let cursor = page1.next_cursor.clone().expect("cursor present");
    assert_eq!(cursor, format!("2024-01-02T10-00-00|{ID1}"));

    let page2 = plan_conversations_page("home/sessions", &snap, 1, Some(&cursor));
    assert_eq!(page2.selected.len(), 1);
    assert!(
        page2.selected[0]
            .path
            .ends_with(&format!("rollout-2024-01-02T09-00-00-{ID2}.jsonl"))
    );
    assert_eq!(page2.scanned_files, 2);
    assert!(!page2.reached_scan_cap);
}

#[test]
fn missing_root_yields_empty_page() {
    let page = empty_page();
    assert_eq!(page.items.len(), 0);
    assert!(page.next_cursor.is_none());
    assert_eq!(page.scanned_files, 0);
    assert!(!page.reached_scan_cap);
}

#[test]
fn empty_snapshot_yields_empty_page() {
    let snap = snapshot(vec![]);
    let plan = plan_conversations_page("home/sessions", &snap, 10, None);
    assert_eq!(plan.selected.len(), 0);
    assert!(plan.next_cursor.is_none());
    assert_eq!(plan.scanned_files, 0);
    assert!(!plan.reached_scan_cap);
}

#[test]
fn items_strictly_descending_across_days() {
    let f = |y: u16, m: u8, d: u8, h: u8, id: &str| {
        format!("rollout-{y:04}-{m:02}-{d:02}T{h:02}-00-00-{id}.jsonl")
    };
    let snap = snapshot(vec![
        YearDir {
            name: "2023".to_string(),
            months: vec![MonthDir {
                name: "12".to_string(),
                days: vec![day("31", &[f(2023, 12, 31, 8, ID2)])],
            }],
        },
        YearDir {
            name: "2024".to_string(),
            months: vec![
                MonthDir {
                    name: "01".to_string(),
                    days: vec![
                        day("02", &[f(2024, 1, 2, 9, ID2), f(2024, 1, 2, 10, ID1)]),
                        day("03", &[f(2024, 1, 3, 7, ID1)]),
                    ],
                },
                MonthDir {
                    name: "02".to_string(),
                    days: vec![day("01", &[f(2024, 2, 1, 6, ID1)])],
                },
            ],
        },
    ]);
    let plan = plan_conversations_page("r/sessions", &snap, 100, None);
    let paths: Vec<&str> = plan.selected.iter().map(|s| s.path.as_str()).collect();
    assert_eq!(
        paths,
        vec![
            format!("r/sessions/2024/02/01/{}", f(2024, 2, 1, 6, ID1)),
            format!("r/sessions/2024/01/03/{}", f(2024, 1, 3, 7, ID1)),
            format!("r/sessions/2024/01/02/{}", f(2024, 1, 2, 10, ID1)),
            format!("r/sessions/2024/01/02/{}", f(2024, 1, 2, 9, ID2)),
            format!("r/sessions/2023/12/31/{}", f(2023, 12, 31, 8, ID2)),
        ]
    );
    assert_eq!(plan.scanned_files, 5);
}

#[test]
fn paging_covers_everything_without_gap_or_overlap() {
    let f = |h: u8, mi: u8| format!("rollout-2024-01-02T{h:02}-{mi:02}-00-{ID1}.jsonl");
    let files = vec![f(8, 0), f(9, 30), f(10, 0), f(11, 15), f(12, 0)];
    let snap = snapshot(vec![YearDir {
        name: "2024".to_string(),
        months: vec![MonthDir {
            name: "01".to_string(),
            days: vec![day("02", &files)],
        }],
    }]);
    let mut seen: Vec<String> = Vec::new();
    let mut cursor: Option<String> = None;
    loop {
        let plan = plan_conversations_page("h/sessions", &snap, 2, cursor.as_deref());
        if plan.selected.is_empty() {
            assert!(plan.next_cursor.is_none());
            break;
        }
        for s in plan.selected.iter() {
            seen.push(s.path.clone());
        }
        cursor = Some(plan.next_cursor.expect("cursor on non-empty page"));
    }
    let expected: Vec<String> = vec![
        format!("h/sessions/2024/01/02/{}", f(12, 0)),
        format!("h/sessions/2024/01/02/{}", f(11, 15)),
        format!("h/sessions/2024/01/02/{}", f(10, 0)),
        format!("h/sessions/2024/01/02/{}", f(9, 30)),
        format!("h/sessions/2024/01/02/{}", f(8, 0)),
    ];
    assert_eq!(seen, expected);
}

#[test]
fn identical_requests_yield_identical_pages() {
    let snap = two_file_snapshot();
    let a = plan_conversations_page("home/sessions", &snap, 1, None);
    let b = plan_conversations_page("home/sessions", &snap, 1, None);
    let ap: Vec<&String> = a.selected.iter().map(|s| &s.path).collect();
    let bp: Vec<&String> = b.selected.iter().map(|s| &s.path).collect();
    assert_eq!(ap, bp);
    assert_eq!(a.next_cursor, b.next_cursor);
    assert_eq!(a.scanned_files, b.scanned_files);
    assert_eq!(a.reached_scan_cap, b.reached_scan_cap);
}

#[test]
fn nonmatching_files_are_invisible() {
    let valid = format!("rollout-2024-01-02T10-00-00-{ID1}.jsonl");
    let files = vec![
        "notes.txt".to_string(),
        "rollout-bad.jsonl".to_string(),
        "rollout-2024-01-02T10-00-00-zzz.jsonl".to_string(),
        valid.clone(),
        "rollout-2024-99-02T10-00-00-zzz.jsonl".to_string(),
    ];
    let snap = snapshot(vec![YearDir {
        name: "2024".to_string(),
        months: vec![MonthDir {
            name: "01".to_string(),
            days: vec![day("02", &files)],
        }],
    }]);
    let plan = plan_conversations_page("home/sessions", &snap, 10, None);
    assert_eq!(plan.scanned_files, 1);
    assert_eq!(plan.selected.len(), 1);
    assert!(plan.selected[0].path.ends_with(&valid));
}

#[test]
fn unparsable_directories_are_skipped() {
    let valid = format!("rollout-2024-01-02T10-00-00-{ID1}.jsonl");
    let snap = snapshot(vec![
        YearDir {
            name: "drafts".to_string(),
            months: vec![MonthDir {
                name: "01".to_string(),
                days: vec![day("02", &[valid.clone()])],
            }],
        },
        YearDir {
            name: "2024".to_string(),
            months: vec![
                MonthDir {
                    name: "1".to_string(),
                    days: vec![day("02", &[valid.clone()])],
                },
                MonthDir {
                    name: "01".to_string(),
                    days: vec![day("2x", &[valid.clone()]), day("02", &[valid.clone()])],
                },
            ],
        },
    ]);
    let plan = plan_conversations_page("home/sessions", &snap, 10, None);
    assert_eq!(plan.selected.len(), 1);
    assert_eq!(
        plan.selected[0].path,
        format!("home/sessions/2024/01/02/{valid}")
    );
}

#[test]
fn malformed_cursor_restarts_from_newest() {
    let snap = two_file_snapshot();
    let fresh = plan_conversations_page("home/sessions", &snap, 2, None);
    let broken = plan_conversations_page("home/sessions", &snap, 2, Some("corrupted token"));
    let fp: Vec<&String> = fresh.selected.iter().map(|s| &s.path).collect();
    let bp: Vec<&String> = broken.selected.iter().map(|s| &s.path).collect();
    assert_eq!(fp, bp);
    assert_eq!(fresh.next_cursor, broken.next_cursor);
    assert_eq!(fresh.scanned_files, broken.scanned_files);
}

#[test]
fn page_size_zero_selects_nothing() {
    let snap = two_file_snapshot();
    let plan = plan_conversations_page("home/sessions", &snap, 0, None);
    assert_eq!(plan.selected.len(), 0);
    assert!(plan.next_cursor.is_none());
}

#[test]
fn scan_cap_stops_at_shard_boundary() {
    // one valid file per day, spread over enough days to pass the cap
    let mut years: Vec<YearDir> = Vec::new();
    let mut total: usize = 0;
    let mut y: u16 = 1300;
    while total < 50005 {
        let mut months: Vec<MonthDir> = Vec::new();
        for m in 1..=12u8 {
            let mut days: Vec<DayDir> = Vec::new();
            for d in 1..=28u8 {
                if total >= 50005 {
                    break;
                }
                let name = format!(
                    "rollout-{y:04}-{m:02}-{d:02}T00-00-00-{ID1}.jsonl"
                );
                days.push(DayDir { name: format!("{d:02}"), files: vec![name] });
                total += 1;
            }
            if !days.is_empty() {
                months.push(MonthDir { name: format!("{m:02}"), days });
            }
        }
        years.push(YearDir { name: format!("{y:04}"), months });
        y += 1;
    }
    let snap = snapshot(years);
    let plan = plan_conversations_page("home/sessions", &snap, 60000, None);
    assert!(plan.reached_scan_cap);
    assert_eq!(plan.scanned_files, 50000);
    assert_eq!(plan.selected.len(), 50000);
    assert!(plan.next_cursor.is_some());
}

#[test]
fn attach_heads_pairs_paths_with_heads() {
    let snap = two_file_snapshot();
    let plan = plan_conversations_page("home/sessions", &snap, 2, None);
    assert_eq!(plan.selected.len(), 2);
    let h1: serde_json::Value = serde_json::from_str("{\"record\":1}").unwrap();
    let heads = vec![vec![h1.clone()], vec![]];
    let page = attach_heads(plan, heads);
    assert_eq!(page.items.len(), 2);
    assert_eq!(page.items[0].head, vec![h1]);
    assert!(page.items[1].head.is_empty());
    assert!(
        page.items[0]
            .path
            .ends_with(&format!("rollout-2024-01-02T10-00-00-{ID1}.jsonl"))
    );
    assert_eq!(page.scanned_files, 2);
    assert!(page.next_cursor.is_some());
}
