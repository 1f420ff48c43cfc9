use process_manager::process::pcb::{PcbData, ProcessState};
use process_manager::user::{Privilege, User};

#[test]
fn new_user_keeps_what_it_was_given() {
    let user = User::new(1000, "current_user", Privilege::Admin);
    assert_eq!(user.id, 1000);
    assert_eq!(user.name, "current_user");
    assert_eq!(user.privilege, Privilege::Admin);
}

#[test]
fn only_an_admin_is_admin() {
    assert!(User::new(0, "admin", Privilege::Admin).is_admin());
    assert!(!User::new(1, "guest", Privilege::Normal).is_admin());
}

#[test]
fn a_cloned_user_is_the_same_user() {
    let user = User::new(7, "seven", Privilege::Normal);
    let copy = user.clone();
    assert_eq!(copy.id, 7);
    assert_eq!(copy.name, "seven");
    assert_eq!(copy.privilege, Privilege::Normal);
}

#[test]
fn state_codes_name_lifecycle_states() {
    let with = |state: char| PcbData { cpu_percent: 0, memory_rss_mb: 0, state, priority: 0, uptime_seconds: 0 };
    assert_eq!(with('R').lifecycle(), ProcessState::Running);
    assert_eq!(with('S').lifecycle(), ProcessState::Sleeping);
    assert_eq!(with('D').lifecycle(), ProcessState::DiskWait);
    assert_eq!(with('Z').lifecycle(), ProcessState::Zombie);
    assert_eq!(with('T').lifecycle(), ProcessState::Stopped);
    assert_eq!(with('I').lifecycle(), ProcessState::Other);
}
