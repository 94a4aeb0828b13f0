use xlyph::levels::generate_wizard_box;

#[test]
fn wizard_box_has_no_enemies() {
    let output = generate_wizard_box();
    assert!(output.combat_spawns.is_empty());
    assert!(output.boss_spawns.is_empty());
}
