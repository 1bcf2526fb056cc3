//! The textual move and request syntax: formatting, parsing, and the
//! round trip between them.

use octi::board::{Arrow, OctiMove, Position};
use octi::game::Action;

fn round_trips(m: OctiMove) {
    let text = m.to_text();
    let parsed = OctiMove::from_text(text.as_str()).unwrap();
    assert_eq!(parsed, m);
}

#[test]
fn format_moves() {
    let arrow = OctiMove::Arrow(Position(1, 5), Arrow::new(2).unwrap());
    assert_eq!(arrow.to_text(), "arr (1,5) 2");
    let step = OctiMove::Move(Position(0, 6), vec![Arrow::new(0).unwrap()]);
    assert_eq!(step.to_text(), "mov (0,6) 0");
    let chain = OctiMove::Move(
        Position(-3, 12),
        vec![Arrow::new(7).unwrap(), Arrow::new(0).unwrap(), Arrow::new(4).unwrap()],
    );
    assert_eq!(chain.to_text(), "mov (-3,12) 7 0 4");
    assert_eq!(Position(2147483647, -2147483648).to_text(), "(2147483647,-2147483648)");
    assert_eq!(Arrow::new(7).unwrap().to_text(), "7");
}

#[test]
fn parse_moves() {
    assert_eq!(
        OctiMove::from_text("arr (1,5) 2").unwrap(),
        OctiMove::Arrow(Position(1, 5), Arrow::new(2).unwrap())
    );
    assert_eq!(
        OctiMove::from_text("mov (2,3) 0 4").unwrap(),
        OctiMove::Move(
            Position(2, 3),
            vec![Arrow::new(0).unwrap(), Arrow::new(4).unwrap()]
        )
    );
    assert_eq!(Position::from_text("(-7,0)").unwrap(), Position(-7, 0));
    assert_eq!(Arrow::from_text("5").unwrap(), Arrow::new(5).unwrap());
}

#[test]
fn parse_rejects_malformed_text() {
    assert!(OctiMove::from_text("").is_err());
    assert!(OctiMove::from_text("arr (1,5)").is_err());
    assert!(OctiMove::from_text("arr (1,5) 8").is_err());
    assert!(OctiMove::from_text("arr (1,5) 2 ").is_err());
    assert!(OctiMove::from_text("mov (1,5)").is_err());
    assert!(OctiMove::from_text("mov (1,5) 9").is_err());
    assert!(OctiMove::from_text("jump (1,5) 2").is_err());
    // only canonical numbers are accepted
    assert!(OctiMove::from_text("arr (01,5) 2").is_err());
    assert!(OctiMove::from_text("arr (+1,5) 2").is_err());
    assert!(OctiMove::from_text("arr (1,-0) 2").is_err());
    assert!(Position::from_text("(1,5) ").is_err());
    assert!(Position::from_text("1,5").is_err());
    assert!(Arrow::from_text("8").is_err());
    assert!(Arrow::from_text("22").is_err());
}

#[test]
fn move_text_round_trip() {
    round_trips(OctiMove::Arrow(Position(0, 0), Arrow::new(0).unwrap()));
    round_trips(OctiMove::Arrow(Position(5, 6), Arrow::new(7).unwrap()));
    round_trips(OctiMove::Arrow(Position(-41, 1000), Arrow::new(3).unwrap()));
    round_trips(OctiMove::Move(Position(1, 5), vec![Arrow::new(1).unwrap()]));
    round_trips(OctiMove::Move(
        Position(2147483647, -2147483648),
        vec![
            Arrow::new(0).unwrap(),
            Arrow::new(0).unwrap(),
            Arrow::new(6).unwrap(),
            Arrow::new(2).unwrap(),
        ],
    ));
}

#[test]
fn parse_actions() {
    assert!(matches!(Action::from_text("start").unwrap(), Action::Start));
    assert!(matches!(Action::from_text("end").unwrap(), Action::End));
    assert!(matches!(
        Action::from_text("overwrite").unwrap(),
        Action::Overwrite
    ));
    assert!(matches!(
        Action::from_text("forward 3").unwrap(),
        Action::Forward(3)
    ));
    assert!(matches!(
        Action::from_text("backward 12").unwrap(),
        Action::Backward(12)
    ));
    assert!(matches!(Action::from_text("ai 4").unwrap(), Action::AI(4)));
    match Action::from_text("move arr (1,5) 2").unwrap() {
        Action::OctiMove(m) => assert_eq!(
            m,
            OctiMove::Arrow(Position(1, 5), Arrow::new(2).unwrap())
        ),
        _ => panic!("expected a move request"),
    }
    assert!(Action::from_text("forward").is_err());
    assert!(Action::from_text("forward -1").is_err());
    assert!(Action::from_text("ai").is_err());
    assert!(Action::from_text("quit").is_err());
    assert!(Action::from_text("move arr").is_err());
}
