use fe_ui_core::entity::JointType;
use fe_ui_core::physics::Stiffness;
use fe_ui_core::style::{AlignItems, Display, FlexDirection, JustifyContent};

#[test]
fn joint_defaults_to_fixed() {
    assert_eq!(JointType::default(), JointType::Fixed);
}

#[test]
fn stiffness_presets_have_their_coefficients() {
    assert_eq!(Stiffness::Rigid.coefficients(), (800, 40));
    assert_eq!(Stiffness::High.coefficients(), (400, 28));
    assert_eq!(Stiffness::Medium.coefficients(), (150, 15));
    assert_eq!(Stiffness::Low.coefficients(), (60, 9));
    assert_eq!(Stiffness::Fluid.coefficients(), (20, 5));
}

#[test]
fn style_enums_default_to_flex_row_stretch_start() {
    assert_eq!(Display::default(), Display::Flex);
    assert_eq!(FlexDirection::default(), FlexDirection::Row);
    assert_eq!(AlignItems::default(), AlignItems::Stretch);
    assert_eq!(JustifyContent::default(), JustifyContent::FlexStart);
}
