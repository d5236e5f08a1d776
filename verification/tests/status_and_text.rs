use ci_dashboard::keys::{
    job_key_of, label_key_of, pipeline_key_of, project_key_of, region_key_of, root_key_of,
    time_key_of,
};
use ci_dashboard::status::{map_status, Status};
use ci_dashboard::text::{format_duration, push_decimal, push_int, push_two_digits};

#[test]
fn known_status_strings_map_to_their_states() {
    assert_eq!(map_status("created"), Status::CREATED);
    assert_eq!(map_status("pending"), Status::PENDING);
    assert_eq!(map_status("running"), Status::RUNNING);
    assert_eq!(map_status("success"), Status::SUCCESS);
    assert_eq!(map_status("failed"), Status::FAILED);
    assert_eq!(map_status("skipped"), Status::SKIPPED);
    assert_eq!(map_status("canceled"), Status::CANCELED);
    assert_eq!(map_status("manual"), Status::MANUAL);
}

#[test]
fn unknown_status_strings_map_to_failed() {
    assert_eq!(map_status(""), Status::FAILED);
    assert_eq!(map_status("Running"), Status::FAILED);
    assert_eq!(map_status("SUCCESS"), Status::FAILED);
    assert_eq!(map_status(" running"), Status::FAILED);
    assert_eq!(map_status("running "), Status::FAILED);
    assert_eq!(map_status("cancelled"), Status::FAILED);
    assert_eq!(map_status("waiting_for_resource"), Status::FAILED);
    assert_eq!(map_status("réussi"), Status::FAILED);
    assert_eq!(map_status("manual\n"), Status::FAILED);
}

#[test]
fn durations_are_formatted_as_a_clock() {
    assert_eq!(format_duration(0), "00:00:00");
    assert_eq!(format_duration(3661), "01:01:01");
    assert_eq!(format_duration(359999), "99:59:59");
}

#[test]
fn durations_keep_each_field_in_its_range() {
    assert_eq!(format_duration(1), "00:00:01");
    assert_eq!(format_duration(59), "00:00:59");
    assert_eq!(format_duration(60), "00:01:00");
    assert_eq!(format_duration(65), "00:01:05");
    assert_eq!(format_duration(3599), "00:59:59");
    assert_eq!(format_duration(3600), "01:00:00");
    assert_eq!(format_duration(36000), "10:00:00");
}

#[test]
fn hours_grow_past_two_digits() {
    assert_eq!(format_duration(360000), "100:00:00");
    assert_eq!(format_duration(i32::MAX), "596523:14:07");
}

#[test]
fn integers_are_written_in_decimal() {
    let cases: [(i32, &str); 9] = [
        (0, "0"),
        (7, "7"),
        (10, "10"),
        (100, "100"),
        (1234567890, "1234567890"),
        (-1, "-1"),
        (-42, "-42"),
        (i32::MAX, "2147483647"),
        (i32::MIN, "-2147483648"),
    ];
    for (number, text) in cases {
        let mut out = String::new();
        push_int(&mut out, number);
        assert_eq!(out, text);
        assert_eq!(out, number.to_string());
    }
}

#[test]
fn digits_are_appended_to_what_is_there() {
    let mut out = String::from("n=");
    push_decimal(&mut out, 0);
    push_decimal(&mut out, 90);
    push_decimal(&mut out, u64::MAX);
    assert_eq!(out, "n=09018446744073709551615");
    let mut out = String::from("#");
    push_int(&mut out, 100);
    assert_eq!(out, "#100");
}

#[test]
fn two_digits_pad_single_digits_only() {
    let mut out = String::new();
    push_two_digits(&mut out, 0);
    out.push(' ');
    push_two_digits(&mut out, 9);
    out.push(' ');
    push_two_digits(&mut out, 10);
    out.push(' ');
    push_two_digits(&mut out, 123);
    assert_eq!(out, "00 09 10 123");
}

#[test]
fn keys_spell_out_the_identity() {
    assert_eq!(root_key_of(), "Content");
    assert_eq!(project_key_of(1), "pr1");
    assert_eq!(project_key_of(-5), "pr-5");
    assert_eq!(pipeline_key_of(1, 100), "pr1_pl100");
    assert_eq!(label_key_of(1, 100), "pr1_pl100:label");
    assert_eq!(time_key_of(1, 100), "pr1_pl100:time");
    assert_eq!(job_key_of(1, 100, "build"), "pr1_pl100_build");
    assert_eq!(job_key_of(12, 3, ""), "pr12_pl3_");
    assert_eq!(job_key_of(12, 3, "unit tests"), "pr12_pl3_unit tests");
}

#[test]
fn keys_of_different_entities_differ() {
    assert_ne!(project_key_of(1), project_key_of(11));
    assert_ne!(project_key_of(1), project_key_of(-1));
    assert_ne!(pipeline_key_of(1, 23), pipeline_key_of(12, 3));
    assert_ne!(pipeline_key_of(1, 2), project_key_of(1));
    assert_ne!(job_key_of(1, 2, "a"), job_key_of(1, 2, "b"));
    assert_ne!(job_key_of(1, 2, "pl3"), pipeline_key_of(1, 2));
    assert_ne!(label_key_of(1, 2), time_key_of(1, 2));
    assert_ne!(label_key_of(1, 2), pipeline_key_of(1, 2));
    assert_ne!(label_key_of(1, 23), label_key_of(12, 3));
}

#[test]
fn no_job_has_the_key_of_a_region() {
    assert_eq!(job_key_of(1, 2, "label"), "pr1_pl2_label");
    assert_eq!(job_key_of(1, 2, "time"), "pr1_pl2_time");
    for name in ["label", "time", ":label", ":time", "", ":", "_label", "pl2:label"] {
        assert_ne!(job_key_of(1, 2, name), label_key_of(1, 2));
        assert_ne!(job_key_of(1, 2, name), time_key_of(1, 2));
    }
    assert_eq!(region_key_of(1, 2, "label"), label_key_of(1, 2));
    assert_eq!(region_key_of(1, 2, "time"), time_key_of(1, 2));
    assert_eq!(region_key_of(7, 8, "extra"), "pr7_pl8:extra");
}
