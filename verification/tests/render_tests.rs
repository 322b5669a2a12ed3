use hdget::lb::{Entry, Pb};
use hdget::render::MILESTONE_BITS;

fn entry(rank: u16, name: &str, user_id: u32, run_id: u32, score: f32) -> Entry {
    Entry {
        rank,
        name: name.as_bytes().to_vec(),
        user_id,
        run_id,
        score_bits: score.to_bits(),
    }
}

fn render(pb: &Pb, score: f32, delta: f32) -> String {
    let score_text = format!("{}", score).into_bytes();
    let delta_text = format!("{}", delta).into_bytes();
    String::from_utf8(pb.render(&score_text, &delta_text)).unwrap()
}

#[test]
fn milestone_bits_are_400() {
    assert_eq!(MILESTONE_BITS, 400.0f32.to_bits());
}

#[test]
fn render_new_participant() {
    let pb = Pb { old: None, new: entry(4, "newcomer", 9, 90, 321.5) };
    let text = render(&pb, 321.5, 0.0);
    assert_eq!(
        text,
        "newcomer just got a new high score! Score: 321.5\n\
         They are now rank #4\n\
         Watch in-game: hyperdemon://run/90\n"
    );
}

#[test]
fn render_improvement_with_gain() {
    let pb = Pb {
        old: Some(entry(5, "possm", 1, 1, 350.0)),
        new: entry(3, "possm", 1, 2, 360.0),
    };
    let text = render(&pb, 360.0, 10.0);
    assert_eq!(
        text,
        "possm just got a new high score! Score: 360 (+10)\n\
         They are now rank #3, gaining 2 ranks.\n\
         Watch in-game: hyperdemon://run/2\n"
    );
}

#[test]
fn render_equal_rank_gains_zero() {
    let pb = Pb {
        old: Some(entry(3, "possm", 1, 1, 350.0)),
        new: entry(3, "possm", 1, 2, 360.0),
    };
    let text = render(&pb, 360.0, 10.0);
    assert!(text.contains("They are now rank #3, gaining 0 ranks.\n"));
}

#[test]
fn render_rank_got_worse() {
    let pb = Pb {
        old: Some(entry(2, "possm", 1, 1, 350.0)),
        new: entry(4, "possm", 1, 2, 360.0),
    };
    let text = render(&pb, 360.0, 10.0);
    assert!(text.contains("They are now rank #4.\n"));
    assert!(!text.contains("gaining"));
}

#[test]
fn render_world_record_banner() {
    let pb = Pb {
        old: Some(entry(2, "fennekal", 2, 2, 399.0)),
        new: entry(1, "fennekal", 2, 3, 410.0),
    };
    let text = render(&pb, 410.0, 11.0);
    assert_eq!(
        text,
        "---  NEW WORLD RECORD  ---\n\
         fennekal just got a new high score! Score: 410 (+11)\n\
         They are now rank #1, gaining 1 ranks.\n\
         Watch in-game: hyperdemon://run/3\n"
    );
}

#[test]
fn world_record_banner_beats_milestone_banner() {
    // The score crossed 400 upward and the new rank is 1: only the
    // world-record banner may appear.
    let pb = Pb {
        old: Some(entry(2, "fennekal", 2, 2, 399.0)),
        new: entry(1, "fennekal", 2, 3, 410.0),
    };
    let text = render(&pb, 410.0, 11.0);
    assert!(text.contains("---  NEW WORLD RECORD  ---\n"));
    assert!(!text.contains("---  NEW 400  ---"));
}

#[test]
fn render_milestone_banner() {
    let pb = Pb {
        old: Some(entry(5, "possm", 1, 1, 399.5)),
        new: entry(3, "possm", 1, 2, 400.5),
    };
    let text = render(&pb, 400.5, 1.0);
    assert!(text.starts_with("---  NEW 400  ---\n"));
    assert!(!text.contains("WORLD RECORD"));
}

#[test]
fn milestone_banner_at_exact_threshold() {
    // A previous score of exactly 400 still counts as not yet past the
    // milestone: crossing it afterwards earns the banner.
    let pb = Pb {
        old: Some(entry(5, "possm", 1, 1, 400.0)),
        new: entry(3, "possm", 1, 2, 400.5),
    };
    let text = render(&pb, 400.5, 0.5);
    assert!(text.starts_with("---  NEW 400  ---\n"));
}

#[test]
fn no_milestone_banner_below_threshold() {
    let pb = Pb {
        old: Some(entry(5, "possm", 1, 1, 380.0)),
        new: entry(3, "possm", 1, 2, 399.0),
    };
    let text = render(&pb, 399.0, 19.0);
    assert!(!text.contains("---"));
}

#[test]
fn no_milestone_banner_for_nan_previous_score() {
    let pb = Pb {
        old: Some(entry(5, "possm", 1, 1, f32::NAN)),
        new: entry(3, "possm", 1, 2, 410.0),
    };
    let text = render(&pb, 410.0, 0.0);
    assert!(!text.contains("---"));
}
