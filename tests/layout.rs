use backward_analysis::config::Stage;
use backward_analysis::path_factory::{distributed_path, dove_dir, PathFactory};

#[test]
fn step_directories() {
    let f = PathFactory::new("data".to_string());
    assert_eq!(f.num_dir(3), "data/0003");
    assert_eq!(f.num_dir(12345), "data/12345");
    assert_eq!(f.num_tmp_dir(4), "data/0004_tmp");
    assert_eq!(f.backstepped(4), "data/0004_tmp/backstepped");
    assert_eq!(f.redistributed(4), "data/0004_tmp/redistributed");
    assert_eq!(f.trimmed_simply(4), "data/0004_tmp/trimmed_simply");
    assert_eq!(f.trimmed_move(10), "data/0010_tmp/trimmed_move");
    assert_eq!(f.trimmed_put(10), "data/0010_tmp/trimmed_put");
    assert_eq!(f.trimmed_remove(10), "data/0010_tmp/trimmed_remove");
}

#[test]
fn win_files_of_odd_steps() {
    let f = PathFactory::new("r".to_string());
    assert_eq!(
        f.win_paths(7, 9),
        vec!["r/0003/09.tdl".to_string(), "r/0005/09.tdl".to_string(), "r/0007/09.tdl".to_string()]
    );
    assert_eq!(f.win_paths(8, 12).len(), 3);
    assert!(f.win_paths(2, 5).is_empty());
    assert_eq!(f.win_paths(3, 2), vec!["r/0003/02.tdl".to_string()]);
}

#[test]
fn bucket_and_shard_names() {
    assert_eq!(dove_dir("x", 9), "x/09");
    assert_eq!(dove_dir("x/y", 12), "x/y/12");
    assert_eq!(distributed_path("x", 12), "x/0012.tdl");
    assert_eq!(distributed_path("x", 0), "x/0000.tdl");
}

#[test]
fn step_and_backstep_files() {
    let f = PathFactory::new("d".to_string());
    assert_eq!(f.step_file(5, 7), "d/0005/07.tdl");
    assert_eq!(
        backward_analysis::path_factory::backstep_path("d/0006_tmp/backstepped/07", 8, 3),
        "d/0006_tmp/backstepped/07/from_08_0003.tdl"
    );
}

#[test]
fn stage_directories() {
    let f = PathFactory::new("d".to_string());
    assert_eq!(f.stage_dir(Stage::Simply, 8), "d/0008_tmp/trimmed_simply");
    assert_eq!(f.stage_dir(Stage::Remove, 8), "d/0008_tmp/trimmed_remove");
    assert_eq!(f.stage_dir(Stage::Move, 8), "d/0008_tmp/trimmed_move");
    assert_eq!(f.stage_dir(Stage::Put, 8), "d/0008_tmp/trimmed_put");
}
