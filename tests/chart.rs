use demonlist::chart::{history_labels, labels_for_periods};
use demonlist::history::DemonMovement;

fn mv(at: i64) -> DemonMovement {
    DemonMovement { demon: 0, from_position: 1, at }
}

#[test]
fn monthly_labels_name_each_month_once() {
    let movements = vec![mv(1431648000), mv(1432080000), mv(1433116800), mv(1451606400)];
    assert_eq!(
        history_labels(&movements),
        Some(vec![
            "Added (May 15)".to_string(),
            String::new(),
            "Jun 15".to_string(),
            "Jan 16".to_string(),
        ])
    );
}

#[test]
fn long_histories_are_labelled_by_year() {
    let mut movements: Vec<DemonMovement> = (0..31).map(|i| mv(1431648000 + i * 86_400)).collect();
    movements.push(mv(1451606400));
    let labels = history_labels(&movements).unwrap();
    assert_eq!(labels.len(), 32);
    assert_eq!(labels[0], "Added (2015)");
    assert!(labels[1..31].iter().all(|l| l.is_empty()));
    assert_eq!(labels[31], "2016");
}

#[test]
fn exactly_thirty_movements_keep_monthly_labels() {
    let movements: Vec<DemonMovement> = (0..30).map(|i| mv(1431648000 + i * 86_400)).collect();
    let labels = history_labels(&movements).unwrap();
    assert_eq!(labels[0], "Added (May 15)");
    assert_eq!(labels[17], "Jun 15");
}

#[test]
fn unrepresentable_timestamps_give_no_labels() {
    assert_eq!(history_labels(&vec![mv(0), mv(i64::MAX)]), None);
    assert_eq!(history_labels(&Vec::new()), Some(Vec::new()));
}

#[test]
fn labels_from_periods() {
    let periods = vec!["a".to_string(), "a".to_string(), "b".to_string(), "a".to_string()];
    assert_eq!(
        labels_for_periods(&periods),
        vec!["Added (a)".to_string(), String::new(), "b".to_string(), "a".to_string()]
    );
}
