use kmeans::kmeans_struct::{MessageType, TaskUser};
use kmeans::node::{draw_code_name, draw_task_number, Action, Event, Fault, KmeansNode, Pending};

fn received(node: &mut KmeansNode, m: MessageType) -> Vec<Action> {
    node.step(Event::Received(m))
}

/// A publisher alone on a task, up to the point where it asks for its groups.
fn publisher_at_first_round() -> KmeansNode {
    let mut node = KmeansNode::new(0, 2, 4);
    let a = received(&mut node, MessageType::TaskNameMessage("17".to_string(), 1));
    assert!(matches!(a.as_slice(), [Action::Send(MessageType::CodeNameMessage(0))]));
    let a = received(&mut node, MessageType::CodeNameMessage(0));
    assert_eq!(a.len(), 3);
    assert!(matches!(&a[0], Action::Send(MessageType::NumMessage(l)) if *l == vec![0]));
    assert!(matches!(a[1], Action::Pause(1)));
    assert!(matches!(a[2], Action::SendPoints(4)));
    let a = received(&mut node, MessageType::NumMessage(vec![0]));
    assert!(a.is_empty());
    assert_eq!(node.user_id.num, 0);
    let a = received(&mut node, MessageType::PointMessage(4));
    assert!(matches!(a.as_slice(), [Action::StorePoints, Action::DrawCenters(2, 4)]));
    assert_eq!(node.step_now, 1);
    let a = node.step(Event::CentersDrawn(vec![2, 3]));
    assert!(matches!(&a[..], [Action::Send(MessageType::ResetKNumMessage(k))] if *k == vec![2, 3]));
    let a = received(&mut node, MessageType::ResetKNumMessage(vec![2, 3]));
    assert_eq!(a.len(), 2);
    assert!(matches!(a[0], Action::StartClock));
    assert!(matches!(&a[1], Action::ComputeTeam(k, 0, 1) if *k == vec![2, 3]));
    node
}

#[test]
fn publisher_runs_a_task_until_centres_stop_moving() {
    let mut node = publisher_at_first_round();
    let a = node.step(Event::TeamComputed(vec![vec![0, 1, 2], vec![3]]));
    assert!(matches!(&a[..], [Action::Send(MessageType::TeamMessage((2, 0, t)))] if *t == vec![vec![0, 1, 2], vec![3]]));
    let a = received(&mut node, MessageType::TeamMessage((2, 0, vec![vec![0, 1, 2], vec![3]])));
    assert!(matches!(&a[..], [Action::ComputeCenters(t, 0, 1)] if *t == vec![vec![0, 1, 2], vec![3]]));
    assert_eq!(node.team, vec![vec![0, 1, 2], vec![3]]);
    let a = node.step(Event::CentersComputed(vec![1, 3]));
    assert!(matches!(&a[..], [Action::Send(MessageType::KNumMessage((3, 0, k)))] if *k == vec![1, 3]));
    // the centres moved: another round
    let a = received(&mut node, MessageType::KNumMessage((3, 0, vec![1, 3])));
    assert!(matches!(&a[..], [Action::ComputeTeam(k, 0, 1)] if *k == vec![1, 3]));
    let a = node.step(Event::TeamComputed(vec![vec![0, 1, 2], vec![3]]));
    assert!(matches!(&a[..], [Action::Send(MessageType::TeamMessage((4, 0, _)))]));
    let a = received(&mut node, MessageType::TeamMessage((4, 0, vec![vec![0, 1, 2], vec![3]])));
    assert!(matches!(&a[..], [Action::ComputeCenters(_, 0, 1)]));
    let a = node.step(Event::CentersComputed(vec![1, 3]));
    assert!(matches!(&a[..], [Action::Send(MessageType::KNumMessage((5, 0, _)))]));
    // the centres stayed: done, and the publisher reports its time
    let a = received(&mut node, MessageType::KNumMessage((5, 0, vec![1, 3])));
    assert!(matches!(&a[..], [Action::Finish(true)]));
    assert!(node.halted);
    assert_eq!(node.k_num, vec![1, 3]);
    // a stopped node does nothing
    let a = received(&mut node, MessageType::CodeNameMessage(9));
    assert!(a.is_empty());
}

#[test]
fn worker_draws_a_code_name() {
    let mut node = KmeansNode::new(1, 1, 1);
    let a = received(&mut node, MessageType::TaskNameMessage("5".to_string(), 2));
    assert!(matches!(a.as_slice(), [Action::DrawCodeName]));
    assert_eq!(node.pending, Pending::CodeName);
    assert_eq!(node.user_list, vec![1, 1]);
    assert_eq!(node.team_list.len(), 2);
    // while it waits, messages are not taken
    let a = received(&mut node, MessageType::NumMessage(vec![3]));
    assert!(a.is_empty());
    assert_eq!(node.user_list, vec![1, 1]);
    let a = node.step(Event::CodeNameDrawn(77));
    assert!(matches!(a.as_slice(), [Action::Send(MessageType::CodeNameMessage(77))]));
    assert_eq!(node.user_id.code_name, 77);
    // workers ignore code names
    let a = received(&mut node, MessageType::CodeNameMessage(5));
    assert!(a.is_empty());
    // its number is the last place of its code name
    received(&mut node, MessageType::NumMessage(vec![77, 3, 77, 8]));
    assert_eq!(node.user_id.num, 2);
    received(&mut node, MessageType::NumMessage(vec![4]));
    assert_eq!(node.user_id.num, 2);
    // points: a worker other than number 0 only keeps them
    let a = received(&mut node, MessageType::PointMessage(6));
    assert!(matches!(a.as_slice(), [Action::StorePoints]));
    // the points come only once
    let a = received(&mut node, MessageType::PointMessage(6));
    assert!(a.is_empty());
}

#[test]
fn initial_centres_before_points_only_start_the_clock() {
    let mut node = KmeansNode::new(0, 2, 4);
    let a = received(&mut node, MessageType::ResetKNumMessage(vec![1, 2]));
    assert!(matches!(a.as_slice(), [Action::StartClock]));
    assert!(node.k_num.is_empty());
}

#[test]
fn groups_of_another_step_are_ignored() {
    let mut node = publisher_at_first_round();
    node.step(Event::TeamComputed(vec![vec![0, 1, 2], vec![3]]));
    let a = received(&mut node, MessageType::TeamMessage((7, 0, vec![vec![0], vec![1]])));
    assert!(a.is_empty());
    let a = received(&mut node, MessageType::KNumMessage((7, 0, vec![0])));
    assert!(a.is_empty());
    assert_eq!(node.team_flag, 0);
}

#[test]
fn merging_joins_the_groups_of_all_workers() {
    let mut node = KmeansNode::new(0, 2, 4);
    received(&mut node, MessageType::TaskNameMessage("1".to_string(), 2));
    received(&mut node, MessageType::CodeNameMessage(0));
    received(&mut node, MessageType::CodeNameMessage(9));
    received(&mut node, MessageType::NumMessage(vec![0, 9]));
    received(&mut node, MessageType::PointMessage(4));
    node.step(Event::CentersDrawn(vec![0, 3]));
    received(&mut node, MessageType::ResetKNumMessage(vec![0, 3]));
    node.step(Event::TeamComputed(vec![vec![0, 1], vec![]]));
    let a = received(&mut node, MessageType::TeamMessage((2, 1, vec![vec![2], vec![3]])));
    assert!(a.is_empty());
    let a = received(&mut node, MessageType::TeamMessage((2, 0, vec![vec![0, 1], vec![]])));
    assert!(matches!(&a[..], [Action::ComputeCenters(t, 0, 2)] if *t == vec![vec![0, 1, 2], vec![3]]));
    let a = node.step(Event::CentersComputed(vec![1]));
    assert!(matches!(&a[..], [Action::Send(MessageType::KNumMessage((3, 0, k)))] if *k == vec![1]));
    received(&mut node, MessageType::KNumMessage((3, 1, vec![3])));
    let a = received(&mut node, MessageType::KNumMessage((3, 0, vec![1])));
    assert!(matches!(&a[..], [Action::ComputeTeam(k, 0, 2)] if *k == vec![1, 3]));
    assert_eq!(node.last_k_num, vec![1, 3]);
}

#[test]
fn code_name_beyond_list_fails() {
    let mut node = KmeansNode::new(0, 1, 1);
    received(&mut node, MessageType::TaskNameMessage("1".to_string(), 2));
    received(&mut node, MessageType::NumMessage(vec![5]));
    assert!(received(&mut node, MessageType::CodeNameMessage(7)).is_empty());
    let a = received(&mut node, MessageType::CodeNameMessage(8));
    assert!(matches!(a.as_slice(), [Action::Fail(Fault::UserListIndex)]));
    assert!(node.halted);
}

#[test]
fn code_names_beyond_capacity_are_ignored() {
    let mut node = KmeansNode::new(0, 1, 1);
    received(&mut node, MessageType::TaskNameMessage("1".to_string(), 1));
    received(&mut node, MessageType::CodeNameMessage(0));
    let a = received(&mut node, MessageType::CodeNameMessage(4));
    assert!(a.is_empty());
    assert_eq!(node.user_list, vec![0]);
}

#[test]
fn groups_from_unknown_participant_fail() {
    let mut node = publisher_at_first_round();
    node.step(Event::TeamComputed(vec![vec![0, 1, 2], vec![3]]));
    let a = received(&mut node, MessageType::TeamMessage((2, 5, vec![])));
    assert!(matches!(a.as_slice(), [Action::Fail(Fault::TeamListIndex)]));
}

#[test]
fn too_few_groups_fail() {
    let mut node = publisher_at_first_round();
    node.step(Event::TeamComputed(vec![vec![0, 1, 2, 3]]));
    let a = received(&mut node, MessageType::TeamMessage((2, 0, vec![vec![0, 1, 2, 3]])));
    assert!(matches!(a.as_slice(), [Action::Fail(Fault::ShortTeam)]));
}

#[test]
fn centres_from_unknown_participant_fail() {
    let mut node = publisher_at_first_round();
    node.step(Event::TeamComputed(vec![vec![0, 1, 2], vec![3]]));
    received(&mut node, MessageType::TeamMessage((2, 0, vec![vec![0, 1, 2], vec![3]])));
    node.step(Event::CentersComputed(vec![1, 3]));
    let a = received(&mut node, MessageType::KNumMessage((3, 2, vec![1])));
    assert!(matches!(a.as_slice(), [Action::Fail(Fault::CenterListIndex)]));
}

#[test]
fn own_number_beyond_centre_list_fails() {
    let mut node = publisher_at_first_round();
    node.user_id = TaskUser { code_name: 0, num: 0 };
    node.step(Event::TeamComputed(vec![vec![0, 1, 2], vec![3]]));
    received(&mut node, MessageType::TeamMessage((2, 0, vec![vec![0, 1, 2], vec![3]])));
    node.k_num_list.clear();
    let a = node.step(Event::CentersComputed(vec![1, 3]));
    assert!(matches!(a.as_slice(), [Action::Fail(Fault::CenterListIndex)]));
}

#[test]
fn step_counter_at_its_limit_fails() {
    let mut node = publisher_at_first_round();
    node.step_now = usize::MAX;
    let a = node.step(Event::TeamComputed(vec![vec![0], vec![1]]));
    assert!(matches!(a.as_slice(), [Action::Fail(Fault::StepOverflow)]));
    assert!(node.halted);
}

#[test]
fn handshakes_change_nothing() {
    let mut node = KmeansNode::new(0, 1, 1);
    let a = received(&mut node, MessageType::HandshakingMessage(("8888".to_string(), 3)));
    assert!(a.is_empty());
    assert_eq!(node.max_user, 0);
}

#[test]
fn drawn_code_names_and_task_numbers_are_in_range() {
    for _ in 0..50 {
        let c = draw_code_name();
        assert!(c >= 2 && c < usize::MAX);
        assert!(draw_task_number() < usize::MAX);
    }
}

#[test]
fn drawn_code_names_vary() {
    let first = draw_code_name();
    assert!((0..20).any(|_| draw_code_name() != first));
}

#[test]
fn node_keeps_one_group_list_per_participant() {
    let mut node = KmeansNode::new(0, 1, 3);
    received(&mut node, MessageType::TaskNameMessage("1".to_string(), 3));
    assert_eq!(node.team_list.len(), 3);
    received(&mut node, MessageType::TaskNameMessage("2".to_string(), 1));
    assert_eq!(node.team_list.len(), 1);
    assert_eq!(node.max_user, 1);
    assert_eq!(node.k_num_list.len(), node.seed_num);
}
