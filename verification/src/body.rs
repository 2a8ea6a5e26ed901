//! Which body's equipment models a body borrows: a body without its own model
//! of a piece of equipment is drawn with the model of a related body.
use vstd::prelude::*;

verus! {

/// A body of the game, by race, sex and age.
#[derive(Clone, Copy, Debug, PartialEq, Eq, Structural)]
pub enum BodyId {
    MidlanderMale,
    MidlanderFemale,
    HighlanderMale,
    HighlanderFemale,
    ElezenMale,
    ElezenFemale,
    MiqoteMale,
    MiqoteFemale,
    RoegadynMale,
    RoegadynFemale,
    LalafellMale,
    LalafellFemale,
    AuRaMale,
    AuRaFemale,
    HrothgarMale,
    VieraFemale,
    ChildHyurMale,
    ChildHyurFemale,
}

impl BodyId {
    pub open spec fn spec_is_male(self) -> bool {
        match self {
            BodyId::MidlanderMale | BodyId::HighlanderMale | BodyId::ElezenMale | BodyId::MiqoteMale
            | BodyId::RoegadynMale | BodyId::LalafellMale | BodyId::AuRaMale | BodyId::HrothgarMale
            | BodyId::ChildHyurMale => true,
            _ => false,
        }
    }

    pub open spec fn spec_is_child(self) -> bool {
        self == BodyId::ChildHyurMale || self == BodyId::ChildHyurFemale
    }

    /// Whether the body is a male one.
    pub fn is_male(self) -> (r: bool)
        ensures
            r == self.spec_is_male(),
    {
        match self {
            BodyId::MidlanderMale | BodyId::HighlanderMale | BodyId::ElezenMale | BodyId::MiqoteMale
            | BodyId::RoegadynMale | BodyId::LalafellMale | BodyId::AuRaMale | BodyId::HrothgarMale
            | BodyId::ChildHyurMale => true,
            _ => false,
        }
    }

    /// Whether the body is a child's.
    pub fn is_child(self) -> (r: bool)
        ensures
            r == self.spec_is_child(),
    {
        self == BodyId::ChildHyurMale || self == BodyId::ChildHyurFemale
    }
}

/// The answer that `has_model` gives for `id`: that of its first entry for
/// `id`, from position `i` on.
pub open spec fn answer_from(has_model: Seq<(BodyId, bool)>, id: BodyId, i: int) -> Option<bool>
    decreases has_model.len() - i,
{
    if i < 0 || i >= has_model.len() {
        None
    } else if has_model[i].0 == id {
        Some(has_model[i].1)
    } else {
        answer_from(has_model, id, i + 1)
    }
}

/// Whether the body `id` has its own model of the piece, as `has_model` answers.
pub open spec fn answer(has_model: Seq<(BodyId, bool)>, id: BodyId) -> Option<bool> {
    answer_from(has_model, id, 0)
}

/// The body whose model is tried next for a body that has none of its own.
pub open spec fn fallback(body_id: BodyId) -> BodyId {
    if body_id == BodyId::LalafellFemale {
        BodyId::LalafellMale
    } else if body_id.spec_is_child() {
        BodyId::ChildHyurMale
    } else if body_id == BodyId::HrothgarMale {
        BodyId::RoegadynMale
    } else if body_id.spec_is_male() {
        BodyId::MidlanderMale
    } else {
        BodyId::MidlanderFemale
    }
}

/// The answers that the choice for `body_id` consults are all given.
pub open spec fn answers_given(body_id: BodyId, has_model: Seq<(BodyId, bool)>) -> bool {
    &&& body_id != BodyId::MidlanderMale ==> answer(has_model, body_id) is Some
    &&& (body_id != BodyId::MidlanderMale && body_id != BodyId::MidlanderFemale && answer(
        has_model,
        body_id,
    ) == Some(false)) ==> answer(has_model, fallback(body_id)) is Some
}

/// The body whose model of the piece is drawn for `body_id`: the body itself
/// where it has one (the midlander male always does); else the midlander
/// male for a midlander female; else the fallback body where that has one;
/// else the midlander male.
pub open spec fn spec_deformed_body_id(body_id: BodyId, has_model: Seq<(BodyId, bool)>) -> BodyId {
    if body_id == BodyId::MidlanderMale {
        BodyId::MidlanderMale
    } else if answer(has_model, body_id) == Some(true) {
        body_id
    } else if body_id == BodyId::MidlanderFemale {
        BodyId::MidlanderMale
    } else if answer(has_model, fallback(body_id)) == Some(true) {
        fallback(body_id)
    } else {
        BodyId::MidlanderMale
    }
}

/// The body chosen for a piece is the midlander male, the base body every
/// model exists for, or a body that has its own model of the piece.
pub proof fn lemma_deformed_has_model(body_id: BodyId, has_model: Seq<(BodyId, bool)>)
    ensures
        spec_deformed_body_id(body_id, has_model) == BodyId::MidlanderMale || answer(
            has_model,
            spec_deformed_body_id(body_id, has_model),
        ) == Some(true),
{
}

/// The male bodies are exactly the male midlander, highlander, elezen,
/// miqo'te, roegadyn, lalafell, au ra and hrothgar bodies and the hyur boy.
pub proof fn lemma_male_bodies(b: BodyId)
    ensures
        b.spec_is_male() <==> (b == BodyId::MidlanderMale || b == BodyId::HighlanderMale || b
            == BodyId::ElezenMale || b == BodyId::MiqoteMale || b == BodyId::RoegadynMale || b
            == BodyId::LalafellMale || b == BodyId::AuRaMale || b == BodyId::HrothgarMale || b
            == BodyId::ChildHyurMale),
{
}

/// A body other than the midlander ones, the lalafell female, the children
/// and the hrothgar borrows the midlander body of its own sex: the male one
/// exactly when it is male, else the female one.
pub proof fn lemma_fallback_by_sex(b: BodyId)
    requires
        b != BodyId::MidlanderMale,
        b != BodyId::MidlanderFemale,
        b != BodyId::LalafellFemale,
        !b.spec_is_child(),
        b != BodyId::HrothgarMale,
    ensures
        fallback(b) == BodyId::MidlanderMale <==> b.spec_is_male(),
        fallback(b) == BodyId::MidlanderFemale <==> !b.spec_is_male(),
{
}

/// Apart from the lalafell female, who borrows the lalafell male model, and
/// the children, who borrow the hyur boy's, a body is drawn with a body of
/// its own sex, unless it falls back to the midlander male base.
pub proof fn lemma_deformed_keeps_sex(body_id: BodyId, has_model: Seq<(BodyId, bool)>)
    requires
        body_id != BodyId::LalafellFemale,
        !body_id.spec_is_child(),
    ensures
        spec_deformed_body_id(body_id, has_model) != BodyId::MidlanderMale ==> spec_deformed_body_id(
            body_id,
            has_model,
        ).spec_is_male() == body_id.spec_is_male(),
        fallback(body_id).spec_is_male() == body_id.spec_is_male(),
{
}

/// The answer that `has_model` gives for `id`.
fn lookup(has_model: &Vec<(BodyId, bool)>, id: BodyId) -> (r: Option<bool>)
    ensures
        r == answer(has_model@, id),
{
    let mut i: usize = 0;
    while i < has_model.len()
        invariant
            i <= has_model@.len(),
            answer(has_model@, id) == answer_from(has_model@, id, i as int),
        decreases has_model@.len() - i,
    {
        if has_model[i].0 == id {
            return Some(has_model[i].1);
        }
        i = i + 1;
    }
    None
}

/// The body whose model of a piece of equipment is drawn for `body_id`, given
/// for each body whether it has its own model of that piece.
pub fn get_deformed_body_id(body_id: BodyId, has_model: &Vec<(BodyId, bool)>) -> (r: BodyId)
    requires
        answers_given(body_id, has_model@),
    ensures
        r == spec_deformed_body_id(body_id, has_model@),
{
    if body_id == BodyId::MidlanderMale {
        return BodyId::MidlanderMale;
    }
    let own = lookup(has_model, body_id).unwrap();
    if own {
        body_id
    } else {
        if body_id == BodyId::MidlanderFemale {
            return BodyId::MidlanderMale;
        }
        let search_id = if body_id == BodyId::LalafellFemale {
            BodyId::LalafellMale
        } else if body_id.is_child() {
            BodyId::ChildHyurMale
        } else if body_id == BodyId::HrothgarMale {
            BodyId::RoegadynMale
        } else if body_id.is_male() {
            BodyId::MidlanderMale
        } else {
            BodyId::MidlanderFemale
        };
        if lookup(has_model, search_id).unwrap() {
            return search_id;
        }
        BodyId::MidlanderMale
    }
}

} // verus!
