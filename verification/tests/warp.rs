use drone_fleet_ternary::{DroneVote, DroneWarp, FleetDirective, Trit};

fn ballot(aborts: usize, regroups: usize, continues: usize) -> FleetDirective {
    let size = aborts + regroups + continues;
    let mut warp = DroneWarp::new(0, size);
    for i in 0..aborts {
        warp.set_vote(i, DroneVote::AbortReturn);
    }
    for i in aborts..aborts + regroups {
        warp.set_vote(i, DroneVote::Regroup);
    }
    warp.execute_ballot()
}

#[test]
fn full_battery_fleet_continues() {
    let mut warp = DroneWarp::new(0, 32);
    for i in 0..32 {
        warp.set_vote(i, DroneVote::ContinueMission);
    }
    assert_eq!(warp.execute_ballot(), FleetDirective::ContinueMission);
}

#[test]
fn low_battery_triggers_abort() {
    let mut warp = DroneWarp::new(0, 32);
    // 12 of 32 are more than a third.
    for i in 0..12 {
        warp.set_vote(i, DroneVote::AbortReturn);
    }
    for i in 12..32 {
        warp.set_vote(i, DroneVote::ContinueMission);
    }
    assert_eq!(warp.execute_ballot(), FleetDirective::AbortReturn);
}

#[test]
fn majority_regroup_beats_continue() {
    let mut warp = DroneWarp::new(0, 32);
    // 18 regroup, 14 continue, none aborts.
    for i in 0..18 {
        warp.set_vote(i, DroneVote::Regroup);
    }
    for i in 18..32 {
        warp.set_vote(i, DroneVote::ContinueMission);
    }
    assert_eq!(warp.execute_ballot(), FleetDirective::Regroup);
}

#[test]
fn ballot_cycle_cost_is_constant() {
    let mut warp = DroneWarp::new(0, 32);
    warp.execute_ballot();
    // 8 setup + 4 + 4, independent of the votes.
    assert_eq!(warp.cycles, 16);
}

#[test]
fn votes_map_to_trits() {
    assert_eq!(DroneVote::ContinueMission.to_trit(), Trit::Pos);
    assert_eq!(DroneVote::Regroup.to_trit(), Trit::Zero);
    assert_eq!(DroneVote::AbortReturn.to_trit(), Trit::Neg);
}

#[test]
fn a_third_of_a_full_warp_aborts() {
    // 11 * 3 = 33 reaches 32, 10 * 3 = 30 does not.
    assert_eq!(ballot(10, 0, 22), FleetDirective::ContinueMission);
    assert_eq!(ballot(11, 0, 21), FleetDirective::AbortReturn);
}

#[test]
fn a_third_of_a_small_warp_aborts() {
    assert_eq!(ballot(0, 0, 8), FleetDirective::ContinueMission);
    assert_eq!(ballot(2, 0, 6), FleetDirective::ContinueMission);
    assert_eq!(ballot(3, 0, 5), FleetDirective::AbortReturn);
    assert_eq!(ballot(1, 0, 2), FleetDirective::AbortReturn);
    assert_eq!(ballot(1, 0, 3), FleetDirective::ContinueMission);
    assert_eq!(ballot(1, 0, 0), FleetDirective::AbortReturn);
}

#[test]
fn a_warp_without_drones_aborts() {
    assert_eq!(ballot(0, 0, 0), FleetDirective::AbortReturn);
}

#[test]
fn regrouping_needs_more_votes_than_going_on() {
    assert_eq!(ballot(0, 4, 4), FleetDirective::ContinueMission);
    assert_eq!(ballot(0, 5, 4), FleetDirective::Regroup);
    assert_eq!(ballot(2, 4, 3), FleetDirective::Regroup);
    assert_eq!(ballot(0, 32, 0), FleetDirective::Regroup);
}

#[test]
fn it_does_not_matter_who_votes_what() {
    let mut front = DroneWarp::new(0, 9);
    let mut back = DroneWarp::new(0, 9);
    for i in 0..3 {
        front.set_vote(i, DroneVote::AbortReturn);
        back.set_vote(8 - i, DroneVote::AbortReturn);
    }
    assert_eq!(front.execute_ballot(), back.execute_ballot());
    assert_eq!(front.last_directive, Some(FleetDirective::AbortReturn));
}

#[test]
fn one_more_abort_keeps_the_abort() {
    let mut warp = DroneWarp::new(0, 12);
    for i in 0..12 {
        warp.set_vote(i, DroneVote::AbortReturn);
        let directive = warp.execute_ballot();
        assert_eq!(directive == FleetDirective::AbortReturn, i >= 3);
    }
}

#[test]
fn a_warp_has_at_most_thirty_two_threads() {
    let mut warp = DroneWarp::new(5, 100);
    assert_eq!(warp.warp_id, 5);
    assert_eq!(warp.votes.len(), 32);
    assert_eq!(warp.last_directive, None);
    warp.set_vote(32, DroneVote::AbortReturn);
    assert_eq!(warp.votes, vec![DroneVote::ContinueMission; 32]);
    assert_eq!(warp.execute_ballot(), FleetDirective::ContinueMission);
}

#[test]
fn only_the_first_threads_are_polled() {
    let mut warp = DroneWarp::new(0, 32);
    for _ in 0..40 {
        warp.votes.push(DroneVote::AbortReturn);
    }
    assert_eq!(warp.execute_ballot(), FleetDirective::ContinueMission);
}

#[test]
fn ballots_leave_the_votes_alone() {
    let mut warp = DroneWarp::new(0, 4);
    warp.set_vote(2, DroneVote::Regroup);
    warp.execute_ballot();
    warp.execute_ballot();
    assert_eq!(warp.cycles, 32);
    assert_eq!(warp.votes[2], DroneVote::Regroup);
    assert_eq!(warp.votes[0], DroneVote::ContinueMission);
    assert_eq!(warp.last_directive, Some(FleetDirective::ContinueMission));
}
