use blockfish_engine::{Color, InvalidColorChar, Orientation};

#[test]
fn colors_are_alphabetic() {
    assert_eq!(Color::try_from('g').map(|c| c.as_char()), Ok('g'));
    assert_eq!(Color::try_from('Z').map(|c| c.as_char()), Ok('Z'));
    assert_eq!(Color::try_from('7'), Err(InvalidColorChar));
    assert_eq!(Color::try_from(' '), Err(InvalidColorChar));
}

#[test]
fn rotations_form_a_cycle() {
    let all = [Orientation::R0, Orientation::R1, Orientation::R2, Orientation::R3];
    for (k, o) in all.iter().enumerate() {
        assert_eq!(o.as_i32(), k as i32);
        assert_eq!(o.cw().ccw(), *o);
        assert_eq!(o.ccw().cw(), *o);
        assert_eq!(o.cw().cw(), o.flip());
        assert_eq!(o.cw().cw().cw().cw(), *o);
        assert_eq!(o.cw().as_i32(), (k as i32 + 1) % 4);
    }
    assert_eq!(Orientation::default(), Orientation::R0);
    assert_eq!(Orientation::R3.cw(), Orientation::R0);
    assert_eq!(Orientation::R0.ccw(), Orientation::R3);
}
