use scheduler::sim::{ProgramError, SimProcess};

fn build_reference_process() -> SimProcess {
    SimProcess::new("T1".to_string(), 5, 25)
}

#[test]
fn can_parse_process_from_string() -> Result<(), ProgramError> {
    let line = "T1,5,25".to_string();
    let process = SimProcess::try_from(line);

    assert_eq!(build_reference_process(), process?);

    Ok(())
}

#[test]
fn shouldnt_parse_process_from_invalid_string() {
    let line = String::from("T1, 23, ");
    assert!(SimProcess::try_from(line).is_err());

    let line = String::from("T1, 5, abc");
    assert!(SimProcess::try_from(line).is_err());
}

#[test]
fn valid_display() {
    let reference_display_string =
        "Process: T1 | Priority: 5 | Remaining Burst: 25 | Wait Time: 0";
    assert_eq!(
        build_reference_process().to_string(),
        reference_display_string
    );
}

#[test]
fn new_starts_with_no_wait() {
    let p = SimProcess::new("A".to_string(), 3, 7);
    assert_eq!(p.name, "A");
    assert_eq!(p.priority, 3);
    assert_eq!(p.burst, 7);
    assert_eq!(p.wait, 0);
}

#[test]
fn parse_trims_white_space_around_fields() {
    let p = SimProcess::try_from(" Task 9 ,\t10 ,  300\n".to_string()).unwrap();
    assert_eq!(p, SimProcess::new("Task 9".to_string(), 10, 300));
}

#[test]
fn parse_refuses_a_fourth_field() {
    match SimProcess::try_from("T1,5,25,x".to_string()) {
        Err(ProgramError::InvalidProcessSpecification(line)) => assert_eq!(line, "T1,5,25,x"),
        Ok(_) => panic!("a line with four fields was accepted"),
    }
    assert!(SimProcess::try_from("T1,5,25,".to_string()).is_err());
}

#[test]
fn parse_accepts_plus_sign_and_leading_zeros() {
    let p = SimProcess::try_from("T3,+7,007".to_string()).unwrap();
    assert_eq!(p, SimProcess::new("T3".to_string(), 7, 7));
}

#[test]
fn parse_takes_largest_values() {
    let p = SimProcess::try_from("T4,255,4294967295".to_string()).unwrap();
    assert_eq!(p, SimProcess::new("T4".to_string(), 255, 4294967295));
}

#[test]
fn parse_error_carries_the_line() {
    match SimProcess::try_from("T1,5".to_string()) {
        Err(ProgramError::InvalidProcessSpecification(line)) => assert_eq!(line, "T1,5"),
        Ok(_) => panic!("a line with two fields was accepted"),
    }
}

#[test]
fn parse_refuses_bad_lines() {
    for line in ["T1", "", "T1,,5", "T1,256,5", "T1,5,4294967296", "T1,-1,5", "T1,+,5", "T1,5,1 0"] {
        assert!(SimProcess::try_from(line.to_string()).is_err(), "{line}");
    }
}

#[test]
fn display_renders_every_field() {
    let mut p = SimProcess::new("Idle".to_string(), 10, 0);
    p.wait = 1234;
    assert_eq!(p.to_string(), "Process: Idle | Priority: 10 | Remaining Burst: 0 | Wait Time: 1234");
}
