use evo_blob::control::{plan_tick, stratify, tick_schedule, InwardUnit, Step, Target};
use evo_blob::logger::log_line;
use evo_blob::world::spawn_worm;

fn unit(nn_id: usize, parent_nn_id: usize, depth: usize, anchor_pos: usize) -> InwardUnit {
    InwardUnit { nn_id, parent_nn_id, depth, anchor_pos }
}

#[test]
fn three_level_pass_order() {
    // root brain 0, child block 1 at depth 1, grandchild block 2 at depth 2,
    // given in an arbitrary order
    let units = vec![unit(2, 1, 2, 3), unit(1, 0, 1, 0)];
    let plan = plan_tick(&units, &vec![0]);
    assert_eq!(plan.targets, vec![Some(Target::Block(1)), Some(Target::Brain(0))]);
    // grandchild before child (before the brain) inward, child before grandchild outward
    assert_eq!(plan.inward_order, vec![0, 1]);
    assert_eq!(plan.outward_order, vec![1, 0]);
}

#[test]
fn depth_two_chain_feeds_the_grandchild_from_its_own_sensors() {
    let units = vec![unit(1, 0, 1, 2), unit(2, 1, 2, 2)];
    let plan = plan_tick(&units, &vec![0]);
    // nothing is delivered into the grandchild: its input is its own sensors
    assert!(plan.targets.iter().all(|t| *t != Some(Target::Block(1))));
    // the intermediate block reads the brain's broadcast before the grandchild runs
    assert_eq!(plan.outward_order, vec![0, 1]);
    assert_eq!(plan.targets[0], Some(Target::Brain(0)));
}

#[test]
fn stratify_is_stable() {
    let units = vec![unit(5, 1, 2, 0), unit(1, 0, 1, 0), unit(6, 1, 2, 1), unit(2, 0, 1, 1), unit(9, 5, 4, 0)];
    let (layers, layer_of) = stratify(&units);
    assert_eq!(layers, vec![vec![1, 3], vec![0, 2], vec![4]]);
    assert_eq!(layer_of, vec![1, 0, 1, 0, 2]);
}

#[test]
fn missing_parent_is_reported() {
    let units = vec![unit(1, 0, 1, 0), unit(2, 7, 2, 0), unit(3, 9, 1, 0)];
    let plan = plan_tick(&units, &vec![0, 4]);
    assert_eq!(plan.targets, vec![Some(Target::Brain(0)), None, None]);
}

#[test]
fn first_matching_parent_wins() {
    let units = vec![unit(1, 0, 1, 0), unit(1, 0, 1, 1), unit(2, 1, 2, 0)];
    let plan = plan_tick(&units, &vec![3, 0, 0]);
    assert_eq!(plan.targets, vec![Some(Target::Brain(1)), Some(Target::Brain(1)), Some(Target::Block(0))]);
}

#[test]
fn worm_layout() {
    let worm = spawn_worm();
    assert_eq!(worm.len(), 8);
    assert_eq!(worm[0].joint_to, None);
    assert_eq!(worm[3].x, 240);
    assert_eq!(worm[3].y, -200);
    assert_eq!(worm[7].joint_to, Some(6));
    assert_eq!((worm[5].half_length, worm[5].half_width), (20, 10));
    assert_eq!((worm[5].parent_anchor_x, worm[5].anchor_x), (20, -20));
    assert_eq!(worm[5].joint_limits, [-1, 5]);
    assert!(!worm[5].contacts_enabled);
}

#[test]
fn test_logger() {
    let ts = "2023-07-25 15:28:56";
    assert_eq!(log_line(ts, "INFO", "This is an info message."), "[2023-07-25 15:28:56 - INFO] This is an info message.");
    assert_eq!(
        log_line(ts, "WARN", &format!("This is a warning with number: {}", 404)),
        "[2023-07-25 15:28:56 - WARN] This is a warning with number: 404"
    );
    assert_eq!(log_line(ts, "ERROR", "An error occurred!"), "[2023-07-25 15:28:56 - ERROR] An error occurred!");
}

#[test]
fn tick_schedule_runs_brain_between_passes() {
    // brain 0 -> child (unit 1) -> grandchild (unit 0)
    let units = vec![unit(2, 1, 2, 3), unit(1, 0, 1, 0)];
    let plan = plan_tick(&units, &vec![0]);
    let steps = tick_schedule(&plan, 1);
    assert_eq!(steps, vec![Step::Inward(0), Step::Inward(1), Step::Brain(0), Step::Outward(1), Step::Outward(0)]);
}
