use ffxiv_tools::body::{get_deformed_body_id, BodyId};

#[test]
fn midlander_male_is_always_drawn_with_its_own_model() {
    assert_eq!(get_deformed_body_id(BodyId::MidlanderMale, &Vec::new()), BodyId::MidlanderMale);
}

#[test]
fn a_body_with_its_own_model_keeps_it() {
    let answers = vec![(BodyId::ElezenFemale, true)];
    assert_eq!(get_deformed_body_id(BodyId::ElezenFemale, &answers), BodyId::ElezenFemale);
}

#[test]
fn midlander_female_without_a_model_borrows_the_male_one() {
    let answers = vec![(BodyId::MidlanderFemale, false)];
    assert_eq!(get_deformed_body_id(BodyId::MidlanderFemale, &answers), BodyId::MidlanderMale);
}

#[test]
fn lalafell_female_borrows_the_lalafell_male_model() {
    let answers = vec![(BodyId::LalafellFemale, false), (BodyId::LalafellMale, true)];
    assert_eq!(get_deformed_body_id(BodyId::LalafellFemale, &answers), BodyId::LalafellMale);
}

#[test]
fn hrothgar_borrows_the_roegadyn_model() {
    let answers = vec![(BodyId::HrothgarMale, false), (BodyId::RoegadynMale, true)];
    assert_eq!(get_deformed_body_id(BodyId::HrothgarMale, &answers), BodyId::RoegadynMale);
}

#[test]
fn children_borrow_the_hyur_boy_model() {
    let answers = vec![(BodyId::ChildHyurFemale, false), (BodyId::ChildHyurMale, true)];
    assert_eq!(get_deformed_body_id(BodyId::ChildHyurFemale, &answers), BodyId::ChildHyurMale);
}

#[test]
fn other_bodies_fall_back_by_sex_then_to_the_midlander_male() {
    let answers = vec![(BodyId::ElezenFemale, false), (BodyId::MidlanderFemale, true)];
    assert_eq!(get_deformed_body_id(BodyId::ElezenFemale, &answers), BodyId::MidlanderFemale);
    let answers = vec![(BodyId::AuRaMale, false), (BodyId::MidlanderMale, false)];
    assert_eq!(get_deformed_body_id(BodyId::AuRaMale, &answers), BodyId::MidlanderMale);
    let answers = vec![(BodyId::VieraFemale, false), (BodyId::MidlanderFemale, false)];
    assert_eq!(get_deformed_body_id(BodyId::VieraFemale, &answers), BodyId::MidlanderMale);
}

#[test]
fn the_first_answer_for_a_body_counts() {
    let answers = vec![(BodyId::MiqoteMale, true), (BodyId::MiqoteMale, false)];
    assert_eq!(get_deformed_body_id(BodyId::MiqoteMale, &answers), BodyId::MiqoteMale);
}
