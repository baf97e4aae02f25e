use aria::derive::{stem_choices, stems, Operation};

#[test]
fn titles_describe_the_derivation() {
    let s = Operation::Stem { track: "drums".into() };
    assert_eq!(s.title_for("My Song"), "My Song — Drums");
    assert_eq!(s.task_type(), "extract");
    assert!(s.needs_sft());

    let e = Operation::Extend;
    assert_eq!(e.title_for("My Song"), "My Song (longer)");
    // Extend is outpainting, not its own task type.
    assert_eq!(e.task_type(), "repaint");
    assert!(!e.needs_sft());
}

#[test]
fn every_operation_has_its_title_and_task() {
    let c = Operation::Cover { caption: "jazz".into() };
    assert_eq!(c.title_for("Song"), "Song (cover)");
    assert_eq!(c.task_type(), "cover");
    assert!(!c.needs_sft());
    let r = Operation::Repaint { caption: None };
    assert_eq!(r.title_for("Song"), "Song (edited)");
    assert_eq!(r.task_type(), "repaint");
    let a = Operation::AddLayer { track: "brass".into(), caption: None };
    assert_eq!(a.title_for("Song"), "Song + brass");
    assert_eq!(a.task_type(), "lego");
    assert!(a.needs_sft());
    // A stem the table does not know keeps its id as its name.
    let u = Operation::Stem { track: "kazoo".into() };
    assert_eq!(u.title_for("Song"), "Song — kazoo");
    let f = Operation::Stem { track: "fx".into() };
    assert_eq!(f.title_for("Song"), "Song — Effects");
}

#[test]
fn the_stem_picker_lists_twelve_stems_in_order() {
    let c = stem_choices();
    assert_eq!(c.len(), 12);
    assert_eq!(c[0].id, "vocals");
    assert_eq!(c[0].name, "Vocals");
    assert_eq!(c[1].name, "Backing vocals");
    assert_eq!(c[11].id, "fx");
    assert_eq!(c[11].name, "Effects");
    assert_eq!(stems().len(), 12);
}
