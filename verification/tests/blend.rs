use schist::blend::BlendMode;

#[test]
fn psd_key_round_trip() {
    for &mode in BlendMode::layer_modes() {
        assert_eq!(BlendMode::from_psd_key(mode.psd_key()), Some(mode));
    }
    assert_eq!(
        BlendMode::from_psd_key(BlendMode::PassThrough.psd_key()),
        Some(BlendMode::PassThrough)
    );
    assert_eq!(BlendMode::from_psd_key(b"????"), None);
}

#[test]
fn keys_and_names_are_those_of_the_format() {
    assert_eq!(BlendMode::Normal.psd_key(), b"norm");
    assert_eq!(BlendMode::Exclusion.psd_key(), b"smud");
    assert_eq!(BlendMode::ColorDodge.psd_key(), b"div ");
    assert_eq!(BlendMode::LinearDodge.display_name(), "Linear Dodge (Add)");
    assert_eq!(BlendMode::PassThrough.display_name(), "Pass Through");
}

#[test]
fn the_layer_menu_has_every_mode_but_pass_through() {
    let modes = BlendMode::layer_modes();
    assert_eq!(modes.len(), 27);
    assert!(!modes.contains(&BlendMode::PassThrough));
    assert_eq!(modes[0], BlendMode::Normal);
    assert_eq!(modes[26], BlendMode::Luminosity);
}
