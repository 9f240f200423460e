use demonlist::aggregate::{best_record, nation_average, nation_total, player_total, Player, Record, RecordStatus};
use demonlist::heatmap::{compute_levels, heat_colour, NationLevel, NationScore, Rgb};
use demonlist::rank_store::{NewDemon, RankStore};
use demonlist::score::{ConfigError, ReferenceScores, ScoreConfig};

fn curve(n: u64) -> Vec<ReferenceScores> {
    (0..n)
        .map(|i| ReferenceScores { at_requirement: 10000 - 50 * i, at_100: 20000 - 100 * i })
        .collect()
}

fn config() -> ScoreConfig {
    ScoreConfig::new(50, 100, curve(100)).unwrap()
}

fn new_demon(requirement: u64) -> NewDemon {
    NewDemon { name: "d".to_string(), requirement, video: None, publisher: 0, verifier: 0 }
}

fn record(id: u64, player: u64, demon: u64, progress: u64, status: RecordStatus, approved_at: i64) -> Record {
    Record { id, player, demon, progress, status, approved_at, video: None }
}

#[test]
fn concrete_scenario_at_the_top_of_the_list() {
    let cfg = config();
    assert_eq!(cfg.list_size(), 50);
    assert_eq!(cfg.extended_list_size(), 100);
    let mut store = RankStore::new();
    let d = store.insert(new_demon(60), 1, 100).unwrap();
    for i in 0..60 {
        store.insert(new_demon(50), i + 2, 100).unwrap();
    }
    let top = cfg.reference_scores(1).unwrap();
    let req = store.by_id(d).unwrap().requirement;
    assert_eq!(cfg.score(1, req, 100), top.at_100);
    assert_eq!(cfg.score(1, req, 100), 20000);
    assert_eq!(cfg.score(1, req, 60), top.at_requirement);
    assert_eq!(cfg.score(1, req, 60), 10000);
    assert_eq!(cfg.score(1, req, 59), 0);
    store.move_to(d, 51, 200).unwrap();
    assert_eq!(store.position_of(d), Ok(51));
    let then = store.reconstruct(150).unwrap();
    assert_eq!(then[0].demon, d);
    assert_eq!(then[0].position, 1);
}

#[test]
fn interpolation_between_reference_scores() {
    let cfg = config();
    assert_eq!(cfg.score(1, 60, 80), 15000);
    assert_eq!(cfg.score(1, 60, 61), 10250);
    assert_eq!(cfg.score(3, 60, 70), 9900 + 9900 * 10 / 40);
    assert_eq!(cfg.score(1, 100, 100), 20000);
    assert_eq!(cfg.score(1, 100, 99), 0);
    assert_eq!(cfg.score(0, 50, 100), 0);
}

#[test]
fn harder_positions_score_at_least_as_much() {
    let cfg = config();
    for progress in 60..=100 {
        for p in 1..100 {
            assert!(cfg.score(p, 60, progress) >= cfg.score(p + 1, 60, progress));
        }
    }
}

#[test]
fn legacy_demons_score_nothing() {
    let cfg = config();
    for progress in 0..=100 {
        assert_eq!(cfg.score(101, 0, progress), 0);
        assert_eq!(cfg.score(5000, 60, progress), 0);
    }
    assert_eq!(cfg.reference_scores(101), None);
    assert!(cfg.is_legacy(101));
    assert!(!cfg.is_legacy(100));
    assert!(!cfg.is_legacy(51));
}

#[test]
fn config_errors() {
    assert!(matches!(ScoreConfig::new(10, 5, curve(5)), Err(ConfigError::ListSizes)));
    assert!(matches!(ScoreConfig::new(5, 10, curve(9)), Err(ConfigError::CurveLength)));
    let mut c = curve(3);
    c[1].at_requirement = c[1].at_100 + 1;
    assert!(matches!(ScoreConfig::new(1, 3, c), Err(ConfigError::EntryOutOfRange)));
    let mut c = curve(3);
    c[2].at_100 = 2_000_000_000_000;
    assert!(matches!(ScoreConfig::new(1, 3, c), Err(ConfigError::EntryOutOfRange)));
    let mut c = curve(3);
    c[2].at_100 = c[0].at_100 + 1;
    assert!(matches!(ScoreConfig::new(1, 3, c), Err(ConfigError::NotMonotonic)));
    assert!(ScoreConfig::new(0, 0, Vec::new()).is_ok());
}

#[test]
fn best_record_prefers_progress_then_earliest_approval() {
    let records = vec![
        record(1, 7, 0, 80, RecordStatus::Approved, 50),
        record(2, 7, 0, 95, RecordStatus::Approved, 40),
        record(3, 7, 0, 95, RecordStatus::Approved, 30),
        record(4, 7, 0, 100, RecordStatus::Rejected, 10),
        record(5, 8, 0, 100, RecordStatus::Approved, 10),
        record(6, 7, 0, 95, RecordStatus::Approved, 30),
    ];
    assert_eq!(best_record(&records, 7, 0), Some(2));
    assert_eq!(best_record(&records, 7, 1), None);
    assert_eq!(best_record(&records, 9, 0), None);
}

#[test]
fn player_and_nation_totals() {
    let cfg = config();
    let mut store = RankStore::new();
    store.insert(new_demon(60), 1, 0).unwrap();
    store.insert(new_demon(50), 2, 0).unwrap();
    let records = vec![
        record(1, 1, 0, 60, RecordStatus::Approved, 0),
        record(2, 1, 0, 80, RecordStatus::Approved, 1),
        record(3, 1, 1, 100, RecordStatus::Approved, 2),
        record(4, 2, 0, 100, RecordStatus::Pending, 3),
        record(5, 2, 1, 40, RecordStatus::Approved, 4),
        record(6, 3, 0, 100, RecordStatus::Approved, 5),
    ];
    assert_eq!(player_total(&store, &cfg, &records, 1), 15000 + 19900);
    assert_eq!(player_total(&store, &cfg, &records, 2), 0);
    assert_eq!(player_total(&store, &cfg, &records, 3), 20000);
    assert_eq!(player_total(&store, &cfg, &Vec::new(), 1), 0);
    let players = vec![
        Player { id: 1, name: "a".to_string(), nationality: Some(10) },
        Player { id: 2, name: "b".to_string(), nationality: Some(10) },
        Player { id: 3, name: "c".to_string(), nationality: Some(20) },
        Player { id: 4, name: "d".to_string(), nationality: None },
    ];
    assert_eq!(nation_total(&store, &cfg, &records, &players, 10), 34900);
    assert_eq!(nation_total(&store, &cfg, &records, &players, 20), 20000);
    assert_eq!(nation_total(&store, &cfg, &records, &players, 30), 0);
    assert_eq!(nation_total(&store, &cfg, &records, &Vec::new(), 10), 0);
    assert_eq!(nation_average(&store, &cfg, &records, &players, 10), 17450);
    assert_eq!(nation_average(&store, &cfg, &records, &players, 20), 20000);
    assert_eq!(nation_average(&store, &cfg, &records, &players, 30), 0);
}

#[test]
fn legacy_demons_add_nothing_to_totals() {
    let cfg = ScoreConfig::new(1, 1, curve(1)).unwrap();
    let mut store = RankStore::new();
    store.insert(new_demon(50), 1, 0).unwrap();
    store.insert(new_demon(50), 2, 0).unwrap();
    let records = vec![
        record(1, 1, 0, 100, RecordStatus::Approved, 0),
        record(2, 1, 1, 100, RecordStatus::Approved, 0),
    ];
    assert_eq!(player_total(&store, &cfg, &records, 1), 20000);
}

fn ns(nation: u64, score: u64) -> NationScore {
    NationScore { nation, score }
}

#[test]
fn heatmap_levels_are_linear_between_extremes() {
    let scores = vec![ns(1, 0), ns(2, 50), ns(3, 100), ns(4, 25)];
    let levels = compute_levels(&scores, 0, 100);
    assert_eq!(
        levels,
        vec![
            NationLevel { nation: 1, level: 0 },
            NationLevel { nation: 2, level: 50 },
            NationLevel { nation: 3, level: 100 },
            NationLevel { nation: 4, level: 25 },
        ]
    );
    let shifted = compute_levels(&vec![ns(1, 10), ns(2, 40), ns(3, 20)], 0, 100);
    assert_eq!(shifted.iter().map(|l| l.level).collect::<Vec<u64>>(), vec![0, 100, 33]);
}

#[test]
fn heatmap_levels_are_clamped() {
    let levels = compute_levels(&vec![ns(1, 0), ns(2, 50), ns(3, 100)], 50, 200);
    assert_eq!(levels.iter().map(|l| l.level).collect::<Vec<u64>>(), vec![50, 100, 100]);
}

#[test]
fn heatmap_with_equal_or_no_totals() {
    let levels = compute_levels(&vec![ns(1, 7), ns(2, 7)], 20, 80);
    assert_eq!(levels.iter().map(|l| l.level).collect::<Vec<u64>>(), vec![20, 20]);
    assert!(compute_levels(&Vec::new(), 0, 100).is_empty());
}

#[test]
fn heatmap_greater_total_never_lower_level() {
    let scores: Vec<NationScore> = (0..40).map(|i| ns(i, (i * 7919) % 1000)).collect();
    let levels = compute_levels(&scores, 0, 100);
    for i in 0..scores.len() {
        for j in 0..scores.len() {
            if scores[i].score > scores[j].score {
                assert!(levels[i].level >= levels[j].level);
            }
        }
    }
}

#[test]
fn heat_colours_at_the_ends_of_the_scale() {
    assert_eq!(heat_colour(0), Rgb { red: 197, green: 211, blue: 222 });
    assert_eq!(heat_colour(100), Rgb { red: 92, green: 166, blue: 209 });
    assert_eq!(heat_colour(50), Rgb { red: 145, green: 189, blue: 215 });
}
