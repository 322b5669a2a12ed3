use hdget::lb::{check_unique_user_ids, Entry, Leaderboard, Pb};

fn entry(rank: u16, name: &str, user_id: u32, run_id: u32, score: f32) -> Entry {
    Entry {
        rank,
        name: name.as_bytes().to_vec(),
        user_id,
        run_id,
        score_bits: score.to_bits(),
    }
}

#[test]
fn test_pb() {
    let old = Leaderboard {
        timestamp_secs: 0,
        entries: vec![entry(1, "possm", 1, 1, 400.0), entry(2, "fennekal", 2, 2, 399.0)],
    };

    let new = Leaderboard {
        timestamp_secs: 600,
        entries: vec![entry(1, "fennekal", 2, 3, 410.0), entry(2, "possm", 1, 1, 400.0)],
    };

    let pbs = old.pbs(&new);

    assert_eq!(pbs[0].old.as_ref().unwrap().name, old.entries[1].name);
    assert_eq!(pbs[0].new.name, new.entries[0].name);
}

#[test]
fn diff_identity_is_empty() {
    let entries = vec![
        entry(1, "possm", 1, 10, 420.5),
        entry(2, "fennekal", 2, 20, 399.0),
        entry(3, "mold", 3, 30, 150.25),
    ];
    let s = Leaderboard { timestamp_secs: 77, entries };
    let pbs = s.pbs(&s);
    assert!(pbs.is_empty());
}

#[test]
fn diff_same_run_suppressed() {
    // Same user and run id on both sides, but score and rank moved: the site
    // re-ranked a tie. No event may be produced for that participant.
    let old = Leaderboard {
        timestamp_secs: 0,
        entries: vec![entry(1, "possm", 1, 7, 400.0)],
    };
    let new = Leaderboard {
        timestamp_secs: 600,
        entries: vec![entry(3, "possm", 1, 7, 401.5)],
    };
    let pbs = old.pbs(&new);
    assert!(pbs.is_empty());
}

#[test]
fn diff_new_participant() {
    let old = Leaderboard {
        timestamp_secs: 0,
        entries: vec![entry(1, "possm", 1, 1, 400.0)],
    };
    let new = Leaderboard {
        timestamp_secs: 600,
        entries: vec![entry(1, "possm", 1, 1, 400.0), entry(2, "newcomer", 9, 90, 123.0)],
    };
    let pbs = old.pbs(&new);
    assert_eq!(pbs.len(), 1);
    assert!(pbs[0].old.is_none());
    assert_eq!(pbs[0].new.user_id, 9);
}

#[test]
fn diff_dropped_participant_not_reported() {
    let old = Leaderboard {
        timestamp_secs: 0,
        entries: vec![entry(1, "possm", 1, 1, 400.0), entry(2, "fennekal", 2, 2, 399.0)],
    };
    let new = Leaderboard {
        timestamp_secs: 600,
        entries: vec![entry(1, "possm", 1, 1, 400.0)],
    };
    let pbs = old.pbs(&new);
    assert!(pbs.is_empty());
}

#[test]
fn diff_order_follows_current_entries() {
    let old = Leaderboard {
        timestamp_secs: 0,
        entries: vec![
            entry(1, "a", 1, 1, 500.0),
            entry(2, "b", 2, 2, 450.0),
            entry(3, "c", 3, 3, 425.0),
        ],
    };
    // b improved (new run), d is new, a unchanged, c improved: events must
    // come in the order of the new snapshot, not of the baseline.
    let new = Leaderboard {
        timestamp_secs: 600,
        entries: vec![
            entry(1, "b", 2, 22, 510.0),
            entry(2, "d", 4, 44, 505.0),
            entry(3, "a", 1, 1, 500.0),
            entry(4, "c", 3, 33, 430.0),
        ],
    };
    let pbs = old.pbs(&new);
    let users: Vec<u32> = pbs.iter().map(|p| p.new.user_id).collect();
    assert_eq!(users, vec![2, 4, 3]);
    assert_eq!(pbs[0].old.as_ref().unwrap().run_id, 2);
    assert!(pbs[1].old.is_none());
    assert_eq!(pbs[2].old.as_ref().unwrap().run_id, 3);
}

#[test]
fn diff_example_swapped_leaders() {
    let old = Leaderboard {
        timestamp_secs: 0,
        entries: vec![entry(1, "possm", 1, 1, 400.0), entry(2, "fennekal", 2, 2, 399.0)],
    };
    let new = Leaderboard {
        timestamp_secs: 600,
        entries: vec![entry(1, "fennekal", 2, 3, 410.0), entry(2, "possm", 1, 1, 400.0)],
    };
    let pbs = old.pbs(&new);
    // Exactly one event: fennekal's new run. possm kept run 1: suppressed.
    assert_eq!(pbs.len(), 1);
    assert_eq!(pbs[0].new.user_id, 2);
    assert_eq!(pbs[0].old.as_ref().unwrap().rank, 2);
    assert_eq!(pbs[0].new.rank, 1);
    let delta = f32::from_bits(pbs[0].new.score_bits)
        - f32::from_bits(pbs[0].old.as_ref().unwrap().score_bits);
    assert_eq!(delta, 11.0);
}

#[test]
fn same_user_checks_user_id_only() {
    let a = entry(1, "possm", 1, 1, 400.0);
    let b = entry(9, "renamed", 1, 2, 100.0);
    let c = entry(1, "possm", 2, 1, 400.0);
    assert!(a.same_user(&b));
    assert!(!a.same_user(&c));
}

#[test]
fn unique_user_ids_check() {
    let unique = vec![entry(1, "a", 1, 1, 1.0), entry(2, "b", 2, 2, 2.0)];
    let duplicated = vec![entry(1, "a", 1, 1, 1.0), entry(2, "b", 1, 2, 2.0)];
    assert!(check_unique_user_ids(&unique));
    assert!(!check_unique_user_ids(&duplicated));
}

#[test]
fn diff_static_call_matches_pbs() {
    let old = vec![entry(1, "a", 1, 1, 1.0)];
    let new = vec![entry(1, "a", 1, 2, 2.0)];
    let pbs = Pb::diff(&old, &new);
    assert_eq!(pbs.len(), 1);
    assert_eq!(pbs[0].new.run_id, 2);
}
