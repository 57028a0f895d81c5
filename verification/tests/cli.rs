use orbitive::cli::{
    absent_line, clear_report, discover, human_size, listing, probed_kinds, validate_fleet,
    InspectError, Segment,
};
use orbitive::shm::{lock_path, ring_segment_name_for_uid};

#[test]
fn formats_binary_sizes() {
    assert_eq!(human_size(900), "900 B");
    assert_eq!(human_size(3_200), "3.12 KiB");
    assert_eq!(human_size(3_355_443), "3.20 MiB");
}

#[test]
fn formats_sizes_like_a_double() {
    let sizes: [u64; 12] = [
        0,
        1_023,
        1_024,
        1_408,
        1_048_575,
        1_048_576,
        1_073_741_823,
        1_073_741_824,
        1_610_612_736,
        9_007_199_254_740_993,
        u64::MAX - 1_023,
        u64::MAX,
    ];
    for bytes in sizes {
        let float = bytes as f64;
        let expected = if float >= 1_073_741_824.0 {
            format!("{:.2} GiB", float / 1_073_741_824.0)
        } else if float >= 1_048_576.0 {
            format!("{:.2} MiB", float / 1_048_576.0)
        } else if float >= 1_024.0 {
            format!("{:.2} KiB", float / 1_024.0)
        } else {
            format!("{bytes} B")
        };
        assert_eq!(human_size(bytes), expected);
    }
}

#[test]
fn follows_the_orbit_name_contract() {
    assert_eq!(
        ring_segment_name_for_uid("web", 231, 501),
        "/orbit-web-231-501"
    );
}

#[test]
fn companion_files_live_in_tmp() {
    assert_eq!(lock_path("/orbit-web-231-501"), "/tmp/orbit-web-231-501.lock");
    assert_eq!(lock_path("//a/b"), "/tmp/a/b.lock");
    assert_eq!(lock_path(""), "/tmp/.lock");
}

#[test]
fn fleet_names_are_checked() {
    assert_eq!(validate_fleet(""), Err(InspectError::EmptyFleet));
    assert_eq!(validate_fleet("a/b"), Err(InspectError::InvalidFleet));
    assert_eq!(validate_fleet("a\0"), Err(InspectError::InvalidFleet));
    assert_eq!(validate_fleet("web-1"), Ok(()));
}

#[test]
fn discovery_reports_what_was_found() {
    assert_eq!(probed_kinds(Some(7)), vec![7]);
    let all = probed_kinds(None);
    assert_eq!(all.len(), 256);
    assert_eq!((all[0], all[255]), (0, 255));

    let mut sizes: Vec<Option<i64>> = vec![None; 256];
    sizes[231] = Some(4_096);
    sizes[3] = Some(0);
    assert_eq!(
        discover("web", 501, None, &sizes),
        Ok(vec![
            Segment {
                kind: 3,
                name: "/orbit-web-3-501".to_owned(),
                size: 0,
            },
            Segment {
                kind: 231,
                name: "/orbit-web-231-501".to_owned(),
                size: 4_096,
            },
        ])
    );
    assert_eq!(discover("web", 501, Some(9), &vec![None]), Ok(Vec::new()));
    assert_eq!(
        discover("web", 501, Some(9), &vec![Some(-1)]),
        Err(InspectError::NegativeSize("/orbit-web-9-501".to_owned()))
    );
    assert_eq!(
        discover("", 501, Some(9), &vec![Some(-1)]),
        Err(InspectError::EmptyFleet)
    );
}

#[test]
fn listings_are_aligned() {
    let segments = vec![
        Segment {
            kind: 7,
            name: "/orbit-web-7-501".to_owned(),
            size: 900,
        },
        Segment {
            kind: 231,
            name: "/orbit-web-231-501".to_owned(),
            size: 3_355_443,
        },
    ];
    let lines = listing(&segments);
    assert_eq!(lines.len(), 3);
    assert_eq!(lines[0], format!("{:>4}  {:>12}  NAME", "KIND", "SIZE"));
    assert_eq!(
        lines[1],
        format!("{:>4}  {:>12}  {}", 7, "900 B", "/orbit-web-7-501")
    );
    assert_eq!(lines[2], " 231      3.20 MiB  /orbit-web-231-501");
    assert_eq!(
        absent_line("web", 501),
        "No Orbit SHM objects found for fleet=web uid=501."
    );
}

#[test]
fn clears_report_what_failed() {
    let named = |name: &str| Segment {
        kind: 1,
        name: name.to_owned(),
        size: 1,
    };
    let segments = vec![named("a"), named("b"), named("c")];
    let report = clear_report(&segments, &vec![None, None, None]);
    assert_eq!(
        report.lines,
        ["removed a", "removed b", "removed c", "removed=3 failed=0"]
    );
    assert_eq!(report.failure, None);
    let faults = vec![Some("busy".to_owned()), None, Some("gone".to_owned())];
    let report = clear_report(&segments, &faults);
    assert_eq!(report.lines, ["removed b", "removed=1 failed=2"]);
    assert_eq!(report.failure, Some("a: busy; c: gone".to_owned()));
}
