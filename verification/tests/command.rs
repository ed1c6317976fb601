use screenforge::command::{
    AddScreenshots, ApplyTemplate, DuplicateScreenshot, Edit, EnterFreeLayout, RemoveScreenshot, RemoveScreenshots,
    ReorderScreenshot, ReplaceScreenshotSource, SetBackground, SetCornerRadiusForAllElements, SetLayoutMode,
    SetMargin, SetScreenshotLabel, SetShadowForAllElements, SetSpacing, SetTitle, SetTransform, SetTransforms,
    UndoStack,
};
use screenforge::double::Double;
use screenforge::model::{
    Background, CornerRadius, Document, ImageSource, LayoutMode, LayoutSettings, Rgba, ScreenshotElement,
    ShadowParams, TextElement, Transform,
};
use screenforge::template::Template;
use std::path::PathBuf;

fn num(v: f64) -> Double {
    Double::from_bits(v.to_bits())
}

fn val(v: Double) -> f64 {
    f64::from_bits(v.bits)
}

#[test]
fn apply_undo_redo_round_trip() {
    let mut doc = Document::new();
    assert_eq!(doc.layout.spacing_px, LayoutSettings::default().spacing_px);
    let mut stack = UndoStack::new();

    stack.apply(Edit::SetSpacing(SetSpacing { old: doc.layout.spacing_px, new: num(40.0) }), &mut doc);
    assert_eq!(doc.layout.spacing_px, num(40.0));
    assert!(stack.can_undo());
    assert!(!stack.can_redo());

    assert!(stack.undo(&mut doc));
    assert_eq!(doc.layout.spacing_px, LayoutSettings::default().spacing_px);
    assert!(!stack.can_undo());
    assert!(stack.can_redo());

    assert!(stack.redo(&mut doc));
    assert_eq!(doc.layout.spacing_px, num(40.0));
}

#[test]
fn new_command_clears_redo_history() {
    let mut doc = Document::new();
    let mut stack = UndoStack::new();
    stack.apply(Edit::SetSpacing(SetSpacing { old: num(24.0), new: num(40.0) }), &mut doc);
    stack.undo(&mut doc);
    assert!(stack.can_redo());

    stack.apply(Edit::SetSpacing(SetSpacing { old: num(24.0), new: num(80.0) }), &mut doc);
    assert!(!stack.can_redo());
}

#[test]
fn undo_redo_on_empty_stack_is_noop() {
    let mut doc = Document::new();
    let mut stack: UndoStack = UndoStack::new();
    assert!(!stack.undo(&mut doc));
    assert!(!stack.redo(&mut doc));
}

#[test]
fn add_screenshots_undo_removes_exactly_the_added_elements() {
    let mut doc = Document::new();
    doc.elements.push(ScreenshotElement::new(ImageSource::Path(PathBuf::from("existing.png")), num(100.0), num(200.0)));
    let existing_id = doc.elements[0].id;

    let added = vec![
        ScreenshotElement::new(ImageSource::Path(PathBuf::from("a.png")), num(100.0), num(200.0)),
        ScreenshotElement::new(ImageSource::Path(PathBuf::from("b.png")), num(100.0), num(200.0)),
    ];
    let mut stack = UndoStack::new();
    stack.apply(Edit::AddScreenshots(AddScreenshots { elements: added }), &mut doc);
    assert_eq!(doc.elements.len(), 3);

    stack.undo(&mut doc);
    assert_eq!(doc.elements.len(), 1);
    assert_eq!(doc.elements[0].id, existing_id);

    stack.redo(&mut doc);
    assert_eq!(doc.elements.len(), 3);
}

#[test]
fn importing_a_tall_portrait_screenshot_grows_the_canvas_to_fit() {
    let mut doc = Document::new();
    assert_eq!(doc.canvas.export_height, 1080);

    let portrait = ScreenshotElement::new(ImageSource::Path(PathBuf::from("phone.png")), num(1080.0), num(2424.0));
    let margin = doc.layout.margin_px;

    let mut stack = UndoStack::new();
    stack.apply(Edit::AddScreenshots(AddScreenshots { elements: vec![portrait] }), &mut doc);

    assert_eq!(doc.canvas.export_width, (1080.0 + val(margin) * 2.0) as u32);
    assert_eq!(doc.canvas.export_height, (2424.0 + val(margin) * 2.0) as u32);

    let fitted = doc.canvas;
    stack.undo(&mut doc);
    assert!(doc.elements.is_empty());
    assert_eq!(doc.canvas, fitted);
}

#[test]
fn reorder_screenshot_moves_element_and_undoes_cleanly() {
    let mut doc = Document::new();
    doc.elements = vec![
        ScreenshotElement::new(ImageSource::Path(PathBuf::from("a.png")), num(100.0), num(200.0)),
        ScreenshotElement::new(ImageSource::Path(PathBuf::from("b.png")), num(100.0), num(200.0)),
        ScreenshotElement::new(ImageSource::Path(PathBuf::from("c.png")), num(100.0), num(200.0)),
    ];
    let ids: Vec<_> = doc.elements.iter().map(|e| e.id).collect();

    let mut stack = UndoStack::new();
    stack.apply(Edit::ReorderScreenshot(ReorderScreenshot { from: 0, to: 2 }), &mut doc);
    let after: Vec<_> = doc.elements.iter().map(|e| e.id).collect();
    assert_eq!(after, vec![ids[1], ids[2], ids[0]]);

    stack.undo(&mut doc);
    let restored: Vec<_> = doc.elements.iter().map(|e| e.id).collect();
    assert_eq!(restored, ids);

    stack.redo(&mut doc);
    let after_redo: Vec<_> = doc.elements.iter().map(|e| e.id).collect();
    assert_eq!(after_redo, vec![ids[1], ids[2], ids[0]]);
}

#[test]
fn reorder_screenshot_moving_backward_round_trips() {
    let mut doc = Document::new();
    doc.elements = vec![
        ScreenshotElement::new(ImageSource::Path(PathBuf::from("a.png")), num(100.0), num(200.0)),
        ScreenshotElement::new(ImageSource::Path(PathBuf::from("b.png")), num(100.0), num(200.0)),
        ScreenshotElement::new(ImageSource::Path(PathBuf::from("c.png")), num(100.0), num(200.0)),
    ];
    let ids: Vec<_> = doc.elements.iter().map(|e| e.id).collect();

    let mut stack = UndoStack::new();
    stack.apply(Edit::ReorderScreenshot(ReorderScreenshot { from: 2, to: 0 }), &mut doc);
    let after: Vec<_> = doc.elements.iter().map(|e| e.id).collect();
    assert_eq!(after, vec![ids[2], ids[0], ids[1]]);

    stack.undo(&mut doc);
    let restored: Vec<_> = doc.elements.iter().map(|e| e.id).collect();
    assert_eq!(restored, ids);
}

#[test]
fn remove_screenshot_undo_restores_element_at_its_original_position() {
    let mut doc = Document::new();
    doc.elements = vec![
        ScreenshotElement::new(ImageSource::Path(PathBuf::from("a.png")), num(100.0), num(200.0)),
        ScreenshotElement::new(ImageSource::Path(PathBuf::from("b.png")), num(100.0), num(200.0)),
        ScreenshotElement::new(ImageSource::Path(PathBuf::from("c.png")), num(100.0), num(200.0)),
    ];
    let ids: Vec<_> = doc.elements.iter().map(|e| e.id).collect();
    let removed = doc.elements[1].clone();

    let mut stack = UndoStack::new();
    stack.apply(Edit::RemoveScreenshot(RemoveScreenshot { index: 1, element: removed }), &mut doc);
    let after: Vec<_> = doc.elements.iter().map(|e| e.id).collect();
    assert_eq!(after, vec![ids[0], ids[2]]);

    stack.undo(&mut doc);
    let restored: Vec<_> = doc.elements.iter().map(|e| e.id).collect();
    assert_eq!(restored, ids);
}

#[test]
fn duplicate_screenshot_inserts_after_source_and_undo_removes_it() {
    let mut doc = Document::new();
    doc.elements = vec![
        ScreenshotElement::new(ImageSource::Path(PathBuf::from("a.png")), num(100.0), num(200.0)),
        ScreenshotElement::new(ImageSource::Path(PathBuf::from("b.png")), num(100.0), num(200.0)),
    ];
    let ids: Vec<_> = doc.elements.iter().map(|e| e.id).collect();
    let mut duplicate = doc.elements[0].clone();
    duplicate.id = uuid::Uuid::new_v4().as_u128();
    let dup_id = duplicate.id;

    let mut stack = UndoStack::new();
    stack.apply(Edit::DuplicateScreenshot(DuplicateScreenshot { source_index: 0, duplicate }), &mut doc);
    let after: Vec<_> = doc.elements.iter().map(|e| e.id).collect();
    assert_eq!(after, vec![ids[0], dup_id, ids[1]]);

    stack.undo(&mut doc);
    let restored: Vec<_> = doc.elements.iter().map(|e| e.id).collect();
    assert_eq!(restored, ids);
}

#[test]
fn set_transform_round_trips_rotation_and_flip() {
    let mut doc = Document::new();
    doc.elements = vec![ScreenshotElement::new(ImageSource::Path(PathBuf::from("a.png")), num(100.0), num(200.0))];
    let id = doc.elements[0].id;
    let old = doc.elements[0].transform;
    let mut new = old;
    new.rotation_deg = num(90.0);
    new.flip_horizontal = true;

    let mut stack = UndoStack::new();
    stack.apply(Edit::SetTransform(SetTransform { element_id: id, old, new }), &mut doc);
    assert_eq!(doc.elements[0].transform.rotation_deg, num(90.0));
    assert!(doc.elements[0].transform.flip_horizontal);

    stack.undo(&mut doc);
    assert_eq!(doc.elements[0].transform, old);
}

#[test]
fn replace_screenshot_source_round_trips() {
    let mut doc = Document::new();
    doc.elements = vec![ScreenshotElement::new(ImageSource::Path(PathBuf::from("old.png")), num(100.0), num(200.0))];
    let id = doc.elements[0].id;

    let cmd = ReplaceScreenshotSource {
        element_id: id,
        old_source: ImageSource::Path(PathBuf::from("old.png")),
        old_natural_width: num(100.0),
        old_natural_height: num(200.0),
        new_source: ImageSource::Path(PathBuf::from("new.png")),
        new_natural_width: num(300.0),
        new_natural_height: num(400.0),
    };
    let mut stack = UndoStack::new();
    stack.apply(Edit::ReplaceScreenshotSource(cmd), &mut doc);
    assert_eq!(doc.elements[0].source, ImageSource::Path(PathBuf::from("new.png")));
    assert_eq!(doc.elements[0].natural_width, num(300.0));

    stack.undo(&mut doc);
    assert_eq!(doc.elements[0].source, ImageSource::Path(PathBuf::from("old.png")));
    assert_eq!(doc.elements[0].natural_width, num(100.0));
}

#[test]
fn set_layout_mode_round_trips() {
    let mut doc = Document::new();
    assert_eq!(doc.layout.mode, LayoutMode::Horizontal);

    let mut stack = UndoStack::new();
    stack.apply(Edit::SetLayoutMode(SetLayoutMode { old: LayoutMode::Horizontal, new: LayoutMode::Grid }), &mut doc);
    assert_eq!(doc.layout.mode, LayoutMode::Grid);

    stack.undo(&mut doc);
    assert_eq!(doc.layout.mode, LayoutMode::Horizontal);
}

#[test]
fn enter_free_layout_snapshots_placements_and_undo_restores_mode_and_transforms() {
    let mut doc = Document::new();
    doc.elements.push(ScreenshotElement::new(ImageSource::Path(PathBuf::from("a.png")), num(100.0), num(200.0)));
    let id = doc.elements[0].id;
    let old_transform = doc.elements[0].transform;
    assert_eq!(old_transform.x, num(0.0));

    let mut new_transform = old_transform;
    new_transform.x = num(42.0);
    new_transform.width = num(100.0);
    new_transform.height = num(200.0);

    let mut stack = UndoStack::new();
    stack.apply(
        Edit::EnterFreeLayout(EnterFreeLayout { old_mode: LayoutMode::Horizontal, transforms: vec![(id, old_transform, new_transform)] }),
        &mut doc,
    );
    assert_eq!(doc.layout.mode, LayoutMode::Free);
    assert_eq!(doc.elements[0].transform.x, num(42.0));

    stack.undo(&mut doc);
    assert_eq!(doc.layout.mode, LayoutMode::Horizontal);
    assert_eq!(doc.elements[0].transform.x, num(0.0));
}

#[test]
fn set_background_round_trips() {
    let mut doc = Document::new();
    let old = doc.background.clone();
    let new = Background::Solid(Rgba::new(num(0.1), num(0.2), num(0.3), num(1.0)));
    let mut stack = UndoStack::new();

    stack.apply(Edit::SetBackground(SetBackground { old: old.clone(), new: new.clone() }), &mut doc);
    assert!(matches!(doc.background, Background::Solid(c) if c == Rgba::new(num(0.1), num(0.2), num(0.3), num(1.0))));

    stack.undo(&mut doc);
    assert_eq!(doc.background, old, "undo must restore the exact prior background, whatever its variant");
}

#[test]
fn set_shadow_for_all_elements_restores_each_elements_own_prior_value() {
    let mut doc = Document::new();
    let mut first = ScreenshotElement::new(ImageSource::Path(PathBuf::from("a.png")), num(100.0), num(200.0));
    first.shadow = ShadowParams::none();
    let mut second = ScreenshotElement::new(ImageSource::Path(PathBuf::from("b.png")), num(100.0), num(200.0));
    second.shadow = ShadowParams::subtle();
    doc.elements = vec![first, second];

    let old: Vec<ShadowParams> = doc.elements.iter().map(|e| e.shadow).collect();
    let mut stack = UndoStack::new();
    stack.apply(Edit::SetShadowForAllElements(SetShadowForAllElements { old, new: ShadowParams::standard() }), &mut doc);
    assert_eq!(doc.elements[0].shadow, ShadowParams::standard());
    assert_eq!(doc.elements[1].shadow, ShadowParams::standard());

    stack.undo(&mut doc);
    assert_eq!(doc.elements[0].shadow, ShadowParams::none());
    assert_eq!(doc.elements[1].shadow, ShadowParams::subtle());
}

#[test]
fn set_corner_radius_for_all_elements_round_trips() {
    let mut doc = Document::new();
    doc.elements = vec![ScreenshotElement::new(ImageSource::Path(PathBuf::from("a.png")), num(100.0), num(200.0))];
    let old: Vec<CornerRadius> = doc.elements.iter().map(|e| e.corner_radius).collect();

    let mut stack = UndoStack::new();
    stack.apply(Edit::SetCornerRadiusForAllElements(SetCornerRadiusForAllElements { old, new: CornerRadius::uniform(num(20.0)) }), &mut doc);
    assert_eq!(doc.elements[0].corner_radius, CornerRadius::uniform(num(20.0)));

    stack.undo(&mut doc);
    assert_eq!(doc.elements[0].corner_radius, CornerRadius::none());
}

#[test]
fn apply_template_updates_layout_background_and_every_elements_shadow_and_radius() {
    let mut doc = Document::new();
    doc.elements = vec![
        ScreenshotElement::new(ImageSource::Path(PathBuf::from("a.png")), num(100.0), num(200.0)),
        ScreenshotElement::new(ImageSource::Path(PathBuf::from("b.png")), num(100.0), num(200.0)),
    ];
    let old_layout = doc.layout;
    let old_background = doc.background.clone();
    let old_shadows: Vec<ShadowParams> = doc.elements.iter().map(|e| e.shadow).collect();
    let old_corner_radii: Vec<CornerRadius> = doc.elements.iter().map(|e| e.corner_radius).collect();

    let template = Template {
        layout: LayoutSettings { mode: LayoutMode::Grid, spacing_px: num(5.0), margin_px: num(10.0) },
        background: Background::Solid(Rgba::new(num(1.0), num(0.0), num(0.0), num(1.0))),
        shadow: ShadowParams::strong(),
        corner_radius: CornerRadius::uniform(num(8.0)),
    };

    let mut stack = UndoStack::new();
    stack.apply(
        Edit::ApplyTemplate(ApplyTemplate {
            old_layout,
            old_background: old_background.clone(),
            old_shadows,
            old_corner_radii,
            new: template.clone(),
        }),
        &mut doc,
    );

    assert_eq!(doc.layout, template.layout);
    assert_eq!(doc.background, template.background);
    assert!(doc.elements.iter().all(|e| e.shadow == ShadowParams::strong()));
    assert!(doc.elements.iter().all(|e| e.corner_radius == CornerRadius::uniform(num(8.0))));

    stack.undo(&mut doc);
    assert_eq!(doc.layout, old_layout);
    assert_eq!(doc.background, old_background);
    assert!(doc.elements.iter().all(|e| e.shadow == ShadowParams::none()));
    assert!(doc.elements.iter().all(|e| e.corner_radius == CornerRadius::none()));
}

#[test]
fn remove_screenshots_deletes_all_given_indices_as_one_step() {
    let mut doc = Document::new();
    doc.elements = vec![
        ScreenshotElement::new(ImageSource::Path(PathBuf::from("a.png")), num(100.0), num(200.0)),
        ScreenshotElement::new(ImageSource::Path(PathBuf::from("b.png")), num(100.0), num(200.0)),
        ScreenshotElement::new(ImageSource::Path(PathBuf::from("c.png")), num(100.0), num(200.0)),
    ];
    let ids: Vec<_> = doc.elements.iter().map(|e| e.id).collect();
    let removed = vec![(2, doc.elements[2].clone()), (0, doc.elements[0].clone())];

    let mut stack = UndoStack::new();
    stack.apply(Edit::RemoveScreenshots(RemoveScreenshots { removed }), &mut doc);
    let after: Vec<_> = doc.elements.iter().map(|e| e.id).collect();
    assert_eq!(after, vec![ids[1]]);

    stack.undo(&mut doc);
    let restored: Vec<_> = doc.elements.iter().map(|e| e.id).collect();
    assert_eq!(restored, ids);

    stack.redo(&mut doc);
    let after_redo: Vec<_> = doc.elements.iter().map(|e| e.id).collect();
    assert_eq!(after_redo, vec![ids[1]]);
}

#[test]
fn set_transforms_moves_every_given_element_and_undoes_cleanly() {
    let mut doc = Document::new();
    doc.elements = vec![
        ScreenshotElement::new(ImageSource::Path(PathBuf::from("a.png")), num(100.0), num(200.0)),
        ScreenshotElement::new(ImageSource::Path(PathBuf::from("b.png")), num(100.0), num(200.0)),
        ScreenshotElement::new(ImageSource::Path(PathBuf::from("c.png")), num(100.0), num(200.0)),
    ];
    doc.elements[0].transform = Transform { x: num(10.0), y: num(10.0), ..doc.elements[0].transform };
    doc.elements[1].transform = Transform { x: num(50.0), y: num(50.0), ..doc.elements[1].transform };
    let (id0, id1, id2) = (doc.elements[0].id, doc.elements[1].id, doc.elements[2].id);
    let (old0, old1) = (doc.elements[0].transform, doc.elements[1].transform);
    let new0 = Transform { x: num(30.0), y: num(30.0), ..old0 };
    let new1 = Transform { x: num(70.0), y: num(70.0), ..old1 };

    let mut stack = UndoStack::new();
    stack.apply(Edit::SetTransforms(SetTransforms { transforms: vec![(id0, old0, new0), (id1, old1, new1)] }), &mut doc);
    assert_eq!(doc.elements[0].transform, new0);
    assert_eq!(doc.elements[1].transform, new1);
    assert_eq!(doc.elements[2].id, id2);

    stack.undo(&mut doc);
    assert_eq!(doc.elements[0].transform, old0);
    assert_eq!(doc.elements[1].transform, old1);
}

#[test]
fn set_margin_and_title_and_label_round_trip() {
    let mut doc = Document::new();
    doc.elements = vec![ScreenshotElement::new(ImageSource::Path(PathBuf::from("a.png")), num(100.0), num(200.0))];
    let id = doc.elements[0].id;
    let mut stack = UndoStack::new();

    stack.apply(Edit::SetMargin(SetMargin { old: doc.layout.margin_px, new: num(7.0) }), &mut doc);
    assert_eq!(doc.layout.margin_px, num(7.0));
    assert_eq!((doc.canvas.export_width, doc.canvas.export_height), (114, 214));

    let mut title = doc.title.clone();
    title.content = "Title".to_string();
    stack.apply(Edit::SetTitle(SetTitle { old: doc.title.clone(), new: title }), &mut doc);
    assert_eq!(doc.title.content, "Title");

    let label = TextElement { enabled: true, ..TextElement::label_default() };
    let set = SetScreenshotLabel { element_id: id, old: doc.elements[0].label.clone(), new: label };
    stack.apply(Edit::SetScreenshotLabel(set), &mut doc);
    assert!(doc.elements[0].label.enabled);

    assert!(stack.undo(&mut doc));
    assert!(!doc.elements[0].label.enabled);
    assert!(stack.undo(&mut doc));
    assert_eq!(doc.title.content, "");
    assert!(stack.undo(&mut doc));
    assert_eq!(doc.layout.margin_px, num(48.0));
    assert_eq!((doc.canvas.export_width, doc.canvas.export_height), (196, 296));
}

#[test]
fn a_command_for_a_screenshot_that_is_gone_changes_nothing() {
    let mut doc = Document::new();
    doc.elements = vec![ScreenshotElement::new(ImageSource::Path(PathBuf::from("a.png")), num(100.0), num(200.0))];
    let before = doc.elements[0].transform;
    let mut moved = before;
    moved.x = num(5.0);
    let mut stack = UndoStack::new();
    stack.apply(Edit::SetTransform(SetTransform { element_id: 1, old: before, new: moved }), &mut doc);
    assert_eq!(doc.elements[0].transform, before);
    stack.apply(Edit::ReorderScreenshot(ReorderScreenshot { from: 9, to: 0 }), &mut doc);
    assert_eq!(doc.elements.len(), 1);
    stack.apply(Edit::RemoveScreenshot(RemoveScreenshot { index: 9, element: doc.elements[0].clone() }), &mut doc);
    assert_eq!(doc.elements.len(), 1);
}

#[test]
fn taking_back_an_import_goes_by_id_after_a_reorder() {
    let mut doc = Document::new();
    doc.elements = vec![ScreenshotElement::new(ImageSource::Path(PathBuf::from("a.png")), num(100.0), num(200.0))];
    let kept = doc.elements[0].id;
    let added = vec![ScreenshotElement::new(ImageSource::Path(PathBuf::from("b.png")), num(100.0), num(200.0))];
    let mut stack = UndoStack::new();
    stack.apply(Edit::AddScreenshots(AddScreenshots { elements: added }), &mut doc);
    doc.elements.swap(0, 1);
    stack.undo(&mut doc);
    assert_eq!(doc.elements.len(), 1);
    assert_eq!(doc.elements[0].id, kept);
}

#[test]
fn a_history_records_commands_of_other_kinds() {
    let mut doc = Document::new();
    let mut stack: UndoStack<SetMargin> = UndoStack::new();
    assert!(!stack.undo(&mut doc));
    stack.apply(SetMargin { old: doc.layout.margin_px, new: num(15.0) }, &mut doc);
    assert_eq!(doc.layout.margin_px, num(15.0));
    assert!(stack.undo(&mut doc));
    assert_eq!(doc.layout.margin_px, LayoutSettings::default().margin_px);
    assert!(stack.redo(&mut doc));
    assert_eq!(doc.layout.margin_px, num(15.0));
}
