use wfc::Rot;

#[test]
fn to() {
    assert_eq!(Rot::new(0).to(&Rot::new(90), 360), Rot::new(90));
    assert_eq!(Rot::new(0).to(&Rot::new(180), 360), Rot::new(180));
    assert_eq!(Rot::new(0).to(&Rot::new(270), 360), Rot::new(270));
    assert_eq!(Rot::new(0).to(&Rot::new(270), 90), Rot::new(0));
    assert_eq!(Rot::new(270).to(&Rot::new(0), 360), Rot::new(90));
    assert_eq!(Rot::new(180).to(&Rot::new(0), 360), Rot::new(180));
    assert_eq!(Rot::new(180).to(&Rot::new(0), 180), Rot::new(0));
    assert_eq!(Rot::new(90).to(&Rot::new(0), 180), Rot::new(90));
}

#[test]
fn rot_90_n() {
    assert_eq!(Rot::new(0).rot_90_n(360, 0), Rot::new(0));
    assert_eq!(Rot::new(0).rot_90_n(360, 1), Rot::new(90));
}

#[test]
fn rot_helpers() {
    assert_eq!(Rot::new(0).rot_90(360), Rot::new(90));
    assert_eq!(Rot::new(270).rot_90(360), Rot::new(0));
    assert_eq!(Rot::new(90).opp(), Rot::new(270));
    assert_eq!(Rot::new(270).opp(), Rot::new(90));
    let rots = Rot::up_to(360);
    assert_eq!(rots.len(), 4);
    assert_eq!(rots[0].degrees(), 0);
    assert_eq!(rots[1].degrees(), 90);
    assert_eq!(rots[2].degrees(), 180);
    assert_eq!(rots[3].degrees(), 270);
    assert_eq!(Rot::up_to(90).len(), 1);
    assert_eq!(Rot::up_to(0).len(), 0);
}
